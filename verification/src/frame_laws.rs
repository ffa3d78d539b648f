//! What holds of every frame.

use vstd::prelude::*;

use crate::axis::{
    grid_index, law_place_covers_the_axis, law_place_is_near, law_place_is_nearest,
    law_place_keeps_order, lemma_grid_index_within, signed, span,
};
use crate::contact::{
    lemma_links_below_listed, lemma_links_of, links_below, links_of, Contact,
};
use crate::debug_render::{
    active, blank_line, border, cell, column, contact_line, contact_lines, frame, grid_line,
    grid_lines, label, renderable, row, touching, GRID_H, GRID_W,
};
use crate::hid::AxisRanges;
use crate::text::{
    decimal, is_number, law_digits_stand_for_their_numbers, law_numbers_read_back,
};

verus! {

/// A contact touches the pad in this slot.
pub open spec fn touches(contacts: Map<u16, Contact>, link: u16) -> bool {
    contacts.contains_key(link) && contacts[link].tip != 0
}

/// Two contacts look alike in a frame: they have the same position and number.
pub open spec fn looks_like(contact1: Contact, contact2: Contact) -> bool {
    contact1.x == contact2.x && contact1.y == contact2.y && contact1.id == contact2.id
}

/// Fingers that do not touch the pad leave no trace in a frame, and of the tip
/// of the others only that it touches matters: contacts that agree on which
/// slots touch the pad, and on the position and number of these, are drawn
/// alike.
pub proof fn law_only_touching_fingers_are_drawn(
    contacts1: Map<u16, Contact>,
    contacts2: Map<u16, Contact>,
    ranges: AxisRanges,
)
    requires
        forall|link: u16| #[trigger]
            touches(contacts1, link) == touches(contacts2, link) && (touches(contacts1, link)
                ==> looks_like(contacts1[link], contacts2[link])),
    ensures
        frame(active(contacts1), ranges) == frame(active(contacts2), ranges),
{
    lemma_touching_below(contacts1, contacts2, 0x1_0000);
    lemma_frame_alike(active(contacts1), active(contacts2), ranges);
}

/// The touching fingers of the slots below `end` look alike.
proof fn lemma_touching_below(contacts1: Map<u16, Contact>, contacts2: Map<u16, Contact>, end: nat)
    requires
        end <= 0x1_0000,
        forall|link: u16| #[trigger]
            touches(contacts1, link) == touches(contacts2, link) && (touches(contacts1, link)
                ==> looks_like(contacts1[link], contacts2[link])),
    ensures
        ({
            let found1 = touching(contacts1, links_below(contacts1, end));
            let found2 = touching(contacts2, links_below(contacts2, end));
            &&& found1.len() == found2.len()
            &&& forall|i: int|
                0 <= i < found1.len() ==> looks_like(#[trigger] found1[i], found2[i])
        }),
    decreases end,
{
    if end > 0 {
        let link = (end - 1) as u16;
        let below1 = links_below(contacts1, (end - 1) as nat);
        let below2 = links_below(contacts2, (end - 1) as nat);
        lemma_touching_below(contacts1, contacts2, (end - 1) as nat);
        assert(below1.push(link).drop_last() =~= below1);
        assert(below2.push(link).drop_last() =~= below2);
        assert(touches(contacts1, link) == touches(contacts2, link));
        let found1 = touching(contacts1, links_below(contacts1, end));
        let found2 = touching(contacts2, links_below(contacts2, end));
        let before1 = touching(contacts1, below1);
        assert forall|i: int| 0 <= i < found1.len() implies looks_like(
            #[trigger] found1[i],
            found2[i],
        ) by {
            if i < before1.len() {
                assert(looks_like(before1[i], touching(contacts2, below2)[i]));
            }
        }
    }
}

/// A cell of the grid shows what the contacts look like and nothing else.
proof fn lemma_cell_alike(
    contacts1: Seq<Contact>,
    contacts2: Seq<Contact>,
    ranges: AxisRanges,
    r: int,
    c: int,
)
    requires
        contacts1.len() == contacts2.len(),
        forall|i: int|
            0 <= i < contacts1.len() ==> looks_like(#[trigger] contacts1[i], contacts2[i]),
    ensures
        cell(contacts1, ranges, r, c) == cell(contacts2, ranges, r, c),
    decreases contacts1.len(),
{
    if contacts1.len() > 0 {
        assert(looks_like(contacts1[contacts1.len() - 1], contacts2[contacts1.len() - 1]));
        assert forall|i: int| 0 <= i < contacts1.drop_last().len() implies looks_like(
            #[trigger] contacts1.drop_last()[i],
            contacts2.drop_last()[i],
        ) by {
            assert(looks_like(contacts1[i], contacts2[i]));
        }
        lemma_cell_alike(contacts1.drop_last(), contacts2.drop_last(), ranges, r, c);
    }
}

/// The lines of the grid show what the contacts look like and nothing else.
proof fn lemma_grid_lines_alike(
    contacts1: Seq<Contact>,
    contacts2: Seq<Contact>,
    ranges: AxisRanges,
    count: nat,
)
    requires
        contacts1.len() == contacts2.len(),
        forall|i: int|
            0 <= i < contacts1.len() ==> looks_like(#[trigger] contacts1[i], contacts2[i]),
    ensures
        grid_lines(contacts1, ranges, count) == grid_lines(contacts2, ranges, count),
    decreases count,
{
    if count > 0 {
        let r = count - 1;
        lemma_grid_lines_alike(contacts1, contacts2, ranges, (count - 1) as nat);
        let line1 = Seq::new(GRID_W as nat, |c: int| cell(contacts1, ranges, r, c));
        let line2 = Seq::new(GRID_W as nat, |c: int| cell(contacts2, ranges, r, c));
        assert forall|c: int| 0 <= c < GRID_W implies line1[c] == line2[c] by {
            lemma_cell_alike(contacts1, contacts2, ranges, r, c);
        }
        assert(line1 =~= line2);
        assert(grid_line(contacts1, ranges, r) == grid_line(contacts2, ranges, r));
    }
}

/// The list shows what the contacts look like and nothing else.
proof fn lemma_contact_lines_alike(contacts1: Seq<Contact>, contacts2: Seq<Contact>)
    requires
        contacts1.len() == contacts2.len(),
        forall|i: int|
            0 <= i < contacts1.len() ==> looks_like(#[trigger] contacts1[i], contacts2[i]),
    ensures
        contact_lines(contacts1) == contact_lines(contacts2),
    decreases contacts1.len(),
{
    if contacts1.len() > 0 {
        assert(looks_like(contacts1[contacts1.len() - 1], contacts2[contacts1.len() - 1]));
        assert forall|i: int| 0 <= i < contacts1.drop_last().len() implies looks_like(
            #[trigger] contacts1.drop_last()[i],
            contacts2.drop_last()[i],
        ) by {
            assert(looks_like(contacts1[i], contacts2[i]));
        }
        lemma_contact_lines_alike(contacts1.drop_last(), contacts2.drop_last());
    }
}

/// A frame shows what the contacts look like and nothing else.
proof fn lemma_frame_alike(
    contacts1: Seq<Contact>,
    contacts2: Seq<Contact>,
    ranges: AxisRanges,
)
    requires
        contacts1.len() == contacts2.len(),
        forall|i: int|
            0 <= i < contacts1.len() ==> looks_like(#[trigger] contacts1[i], contacts2[i]),
    ensures
        frame(contacts1, ranges) == frame(contacts2, ranges),
{
    lemma_grid_lines_alike(contacts1, contacts2, ranges, GRID_H as nat);
    lemma_contact_lines_alike(contacts1, contacts2);
}

/// Those of the given slots that touch the pad.
pub open spec fn touching_links(contacts: Map<u16, Contact>, links: Seq<u16>) -> Seq<u16>
    decreases links.len(),
{
    if links.len() == 0 {
        Seq::empty()
    } else {
        let before = touching_links(contacts, links.drop_last());
        if touches(contacts, links.last()) {
            before.push(links.last())
        } else {
            before
        }
    }
}

/// The slots that touch the pad, in the order in which they are drawn and
/// listed.
pub open spec fn active_links(contacts: Map<u16, Contact>) -> Seq<u16> {
    touching_links(contacts, links_of(contacts))
}

/// A frame goes through the slots that touch the pad, each once and in
/// ascending order.
pub proof fn law_touching_slots_are_drawn_in_order(contacts: Map<u16, Contact>)
    ensures
        active(contacts).len() == active_links(contacts).len(),
        forall|i: int|
            0 <= i < active(contacts).len() ==> #[trigger] active(contacts)[i]
                == contacts[active_links(contacts)[i]],
        forall|i: int, j: int|
            0 <= i < j < active_links(contacts).len() ==> active_links(contacts)[i]
                < active_links(contacts)[j],
        forall|link: u16| #[trigger]
            active_links(contacts).contains(link) <==> touches(contacts, link),
{
    lemma_links_below_listed(contacts, 0x1_0000);
    let links = links_of(contacts);
    lemma_touching_links(contacts, links);
    assert forall|link: u16| #[trigger] active_links(contacts).contains(link) <==> touches(
        contacts,
        link,
    ) by {
        if touches(contacts, link) {
            assert(links.contains(link));
        }
    }
}

/// Of ascending slots the touching ones are found in ascending order.
proof fn lemma_touching_links(contacts: Map<u16, Contact>, links: Seq<u16>)
    requires
        forall|i: int, j: int| 0 <= i < j < links.len() ==> links[i] < links[j],
        forall|i: int| 0 <= i < links.len() ==> contacts.contains_key(#[trigger] links[i]),
    ensures
        ({
            let found = touching_links(contacts, links);
            &&& touching(contacts, links).len() == found.len()
            &&& forall|i: int|
                0 <= i < found.len() ==> touching(contacts, links)[i]
                    == contacts[#[trigger] found[i]]
            &&& forall|i: int, j: int| 0 <= i < j < found.len() ==> found[i] < found[j]
            &&& forall|i: int|
                0 <= i < found.len() ==> links.contains(#[trigger] found[i]) && touches(
                    contacts,
                    found[i],
                )
            &&& forall|link: u16|
                links.contains(link) && touches(contacts, link) ==> #[trigger] found.contains(link)
        }),
    decreases links.len(),
{
    if links.len() > 0 {
        let rest = links.drop_last();
        let last = links.last();
        let found = touching_links(contacts, links);
        let before = touching_links(contacts, rest);
        assert forall|i: int| 0 <= i < rest.len() implies contacts.contains_key(
            #[trigger] rest[i],
        ) by {
            assert(contacts.contains_key(links[i]));
        }
        lemma_touching_links(contacts, rest);
        assert(contacts.contains_key(links[links.len() - 1]));
        assert forall|i: int| 0 <= i < before.len() implies #[trigger] before[i] < last
            && links.contains(before[i]) by {
            assert(rest.contains(before[i]));
            let at = choose|k: int| 0 <= k < rest.len() && rest[k] == before[i];
            assert(links[at] == before[i] && links[at] < links[links.len() - 1]);
        }
        assert(links.contains(last)) by {
            assert(links[links.len() - 1] == last);
        }
        assert forall|i: int| 0 <= i < found.len() implies links.contains(#[trigger] found[i])
            && touches(contacts, found[i]) && touching(contacts, links)[i]
            == contacts[found[i]] by {
            if i < before.len() {
                assert(found[i] == before[i]);
            }
        }
        assert forall|i: int, j: int| 0 <= i < j < found.len() implies found[i] < found[j] by {
            assert(found[i] == before[i]);
            if j < before.len() {
                assert(found[j] == before[j]);
            }
        }
        assert forall|link: u16| links.contains(link) && touches(contacts, link) implies #[trigger]
            found.contains(link) by {
            let at = choose|k: int| 0 <= k < links.len() && links[k] == link;
            if at < rest.len() {
                assert(rest[at] == link);
                assert(rest.contains(link));
                assert(before.contains(link));
                let k = choose|k: int| 0 <= k < before.len() && before[k] == link;
                assert(found[k] == link);
            } else {
                assert(found[found.len() - 1] == link);
            }
        }
    }
}

/// The finger in this slot touches the pad and is drawn in this cell.
pub open spec fn drawn_at(
    contacts: Map<u16, Contact>,
    ranges: AxisRanges,
    link: u16,
    r: int,
    c: int,
) -> bool {
    touches(contacts, link) && row(contacts[link], ranges) == r && column(contacts[link], ranges)
        == c
}

/// Of the touching fingers that are drawn in a cell, the one in the highest
/// slot shows; a cell in which none is drawn shows a dot.
pub proof fn law_the_highest_slot_shows(
    contacts: Map<u16, Contact>,
    ranges: AxisRanges,
    link: u16,
    r: int,
    c: int,
)
    ensures
        drawn_at(contacts, ranges, link, r, c) && (forall|other: u16|
            other > link ==> !(#[trigger] drawn_at(contacts, ranges, other, r, c))) ==> cell(
            active(contacts),
            ranges,
            r,
            c,
        ) == label(contacts[link]),
        (forall|other: u16| !(#[trigger] drawn_at(contacts, ranges, other, r, c))) ==> cell(
            active(contacts),
            ranges,
            r,
            c,
        ) == '.',
{
    let links = active_links(contacts);
    let found = active(contacts);
    law_touching_slots_are_drawn_in_order(contacts);
    assert forall|i: int| 0 <= i < found.len() implies (row(#[trigger] found[i], ranges) == r
        && column(found[i], ranges) == c) == drawn_at(contacts, ranges, links[i], r, c) by {
        assert(links.contains(links[i]));
    }
    if drawn_at(contacts, ranges, link, r, c) {
        assert(links.contains(link));
        let at = choose|i: int| 0 <= i < links.len() && links[i] == link;
        law_a_cell_shows_its_last_finger(found, ranges, at, r, c);
        assert(found[at] == contacts[link]);
    } else {
        law_a_cell_shows_its_last_finger(found, ranges, 0, r, c);
    }
}

/// A frame shows every finger that touches the pad, and no other contact.
pub proof fn law_every_touching_finger_is_active(contacts: Map<u16, Contact>, contact: Contact)
    ensures
        active(contacts).contains(contact) <==> exists|link: u16| #[trigger]
            touches(contacts, link) && contacts[link] == contact,
{
    let links = active_links(contacts);
    let found = active(contacts);
    law_touching_slots_are_drawn_in_order(contacts);
    if exists|link: u16| #[trigger] touches(contacts, link) && contacts[link] == contact {
        let link = choose|link: u16| #[trigger]
            touches(contacts, link) && contacts[link] == contact;
        assert(links.contains(link));
        let at = choose|i: int| 0 <= i < links.len() && links[i] == link;
        assert(found[at] == contact);
    }
    if found.contains(contact) {
        let at = choose|i: int| 0 <= i < found.len() && found[i] == contact;
        assert(links.contains(links[at]));
        assert(touches(contacts, links[at]));
    }
}

/// A cell shows the label of the contact with the highest index among those
/// drawn there; a cell where no contact is drawn shows a dot.
pub proof fn law_a_cell_shows_its_last_finger(
    contacts: Seq<Contact>,
    ranges: AxisRanges,
    at: int,
    r: int,
    c: int,
)
    ensures
        0 <= at < contacts.len() && row(contacts[at], ranges) == r && column(contacts[at], ranges)
            == c && (forall|i: int|
            at < i < contacts.len() ==> !(row(#[trigger] contacts[i], ranges) == r && column(
                contacts[i],
                ranges,
            ) == c)) ==> cell(contacts, ranges, r, c) == label(contacts[at]),
        (forall|i: int|
            0 <= i < contacts.len() ==> !(row(#[trigger] contacts[i], ranges) == r && column(
                contacts[i],
                ranges,
            ) == c)) ==> cell(contacts, ranges, r, c) == '.',
    decreases contacts.len(),
{
    if contacts.len() > 0 {
        let before = contacts.drop_last();
        law_a_cell_shows_its_last_finger(before, ranges, at, r, c);
        assert(forall|i: int| 0 <= i < before.len() ==> before[i] == contacts[i]);
        assert(contacts[contacts.len() - 1] == contacts.last());
    }
}

/// Fingers whose numbers differ in the last hexadecimal digit are shown by
/// different characters, and no finger is shown by the dot of an empty cell.
pub proof fn law_labels_tell_fingers_apart(contact1: Contact, contact2: Contact)
    ensures
        label(contact1) == label(contact2) <==> contact1.id % 16 == contact2.id % 16,
        label(contact1) != '.',
{
}

/// Every finger is drawn inside the grid, however far outside the device's
/// ranges it is reported.
pub proof fn law_fingers_stay_inside_the_grid(contact: Contact, ranges: AxisRanges)
    ensures
        row(contact, ranges) < GRID_H,
        column(contact, ranges) < GRID_W,
{
    lemma_grid_index_within(
        signed(contact.y) - ranges.y_min,
        span(ranges.y_min as int, ranges.y_max as int),
        (GRID_H - 1) as nat,
    );
    lemma_grid_index_within(
        signed(contact.x) - ranges.x_min,
        span(ranges.x_min as int, ranges.x_max as int),
        (GRID_W - 1) as nat,
    );
}

/// A character that moves the cursor one column and does nothing else.
pub open spec fn printable(c: char) -> bool {
    ' ' <= c <= '~'
}

/// A line of text with its end.
pub open spec fn is_line(s: Seq<char>) -> bool {
    &&& s.len() > 0
    &&& s.last() == '\n'
    &&& forall|i: int| 0 <= i < s.len() - 1 ==> printable(#[trigger] s[i])
}

/// Lines one after the other.
pub open spec fn joined(lines: Seq<Seq<char>>) -> Seq<char>
    decreases lines.len(),
{
    if lines.len() == 0 {
        Seq::empty()
    } else {
        joined(lines.drop_last()) + lines.last()
    }
}

/// The line that counts the contacts.
pub open spec fn count_line(contacts: Seq<Contact>) -> Seq<char> {
    "contacts: "@ + decimal(contacts.len()) + "          \n"@
}

/// The lines of a frame.
pub open spec fn frame_lines(contacts: Seq<Contact>, ranges: AxisRanges) -> Seq<Seq<char>> {
    seq![border()] + Seq::new(GRID_H as nat, |r: int| grid_line(contacts, ranges, r)) + seq![
        border(),
        count_line(contacts),
    ] + Seq::new(contacts.len(), |i: int| contact_line(contacts[i])) + seq![
        blank_line(),
        blank_line(),
    ]
}

proof fn lemma_joined_concat(lines1: Seq<Seq<char>>, lines2: Seq<Seq<char>>)
    ensures
        joined(lines1 + lines2) == joined(lines1) + joined(lines2),
    decreases lines2.len(),
{
    if lines2.len() == 0 {
        assert(lines1 + lines2 =~= lines1);
        assert(joined(lines1) + joined(lines2) =~= joined(lines1));
    } else {
        assert((lines1 + lines2).drop_last() =~= lines1 + lines2.drop_last());
        lemma_joined_concat(lines1, lines2.drop_last());
        assert((joined(lines1) + joined(lines2.drop_last())) + lines2.last() =~= joined(lines1) + (
        joined(lines2.drop_last()) + lines2.last()));
    }
}

/// Lines that are put together stand one after the other, each as it is.
pub proof fn law_lines_stand_one_after_the_other(
    lines1: Seq<Seq<char>>,
    line: Seq<char>,
    lines2: Seq<Seq<char>>,
)
    ensures
        joined(lines1 + seq![line] + lines2) == joined(lines1) + line + joined(lines2),
        joined(Seq::empty()) == Seq::<char>::empty(),
{
    lemma_joined_concat(lines1 + seq![line], lines2);
    lemma_joined_concat(lines1, seq![line]);
    assert(joined(seq![line]) =~= line) by {
        reveal_with_fuel(joined, 2);
        assert(seq![line].drop_last() =~= Seq::empty());
    }
}

proof fn lemma_joined_grid(contacts: Seq<Contact>, ranges: AxisRanges, count: nat)
    ensures
        joined(Seq::new(count, |r: int| grid_line(contacts, ranges, r))) == grid_lines(
            contacts,
            ranges,
            count,
        ),
    decreases count,
{
    if count > 0 {
        let lines = Seq::new(count, |r: int| grid_line(contacts, ranges, r));
        lemma_joined_grid(contacts, ranges, (count - 1) as nat);
        assert(lines.drop_last() =~= Seq::new(
            (count - 1) as nat,
            |r: int| grid_line(contacts, ranges, r),
        ));
    }
}

proof fn lemma_joined_contacts(contacts: Seq<Contact>)
    ensures
        joined(Seq::new(contacts.len(), |i: int| contact_line(contacts[i]))) == contact_lines(
            contacts,
        ),
    decreases contacts.len(),
{
    if contacts.len() > 0 {
        let before = contacts.drop_last();
        lemma_joined_contacts(before);
        assert(Seq::new(contacts.len(), |i: int| contact_line(contacts[i])).drop_last()
            =~= Seq::new(before.len(), |i: int| contact_line(before[i])));
    }
}

/// Numbers and labels are made of printable characters.
proof fn lemma_decimal_printable(n: nat)
    ensures
        forall|i: int| 0 <= i < decimal(n).len() ==> printable(#[trigger] decimal(n)[i]),
    decreases n,
{
    let digits = decimal(n);
    if n >= 10 {
        let before = decimal(n / 10);
        lemma_decimal_printable(n / 10);
        assert forall|i: int| 0 <= i < digits.len() implies printable(#[trigger] digits[i]) by {
            if i < before.len() {
                assert(printable(before[i]));
            }
        }
    }
}

/// A number of 32 bits has one to ten digits.
proof fn lemma_decimal_length(n: u32)
    ensures
        1 <= decimal(n as nat).len() <= 10,
{
    reveal_with_fuel(decimal, 10);
}

proof fn lemma_cell_printable(contacts: Seq<Contact>, ranges: AxisRanges, r: int, c: int)
    ensures
        printable(cell(contacts, ranges, r, c)),
    decreases contacts.len(),
{
    if contacts.len() > 0 {
        lemma_cell_printable(contacts.drop_last(), ranges, r, c);
    }
}

pub proof fn lemma_border_line()
    ensures
        is_line(border()),
        border().len() == GRID_W + 3,
{
    reveal_strlit("+");
    reveal_strlit("+\n");
}

pub proof fn lemma_grid_line(contacts: Seq<Contact>, ranges: AxisRanges, r: int)
    ensures
        is_line(grid_line(contacts, ranges, r)),
        grid_line(contacts, ranges, r).len() == GRID_W + 3,
        forall|c: int|
            0 <= c < GRID_W ==> #[trigger] grid_line(contacts, ranges, r)[c + 1] == cell(
                contacts,
                ranges,
                r,
                c,
            ),
{
    reveal_strlit("|");
    reveal_strlit("|\n");
    let line = grid_line(contacts, ranges, r);
    assert forall|i: int| 0 <= i < line.len() - 1 implies printable(#[trigger] line[i]) by {
        if 0 < i <= GRID_W {
            lemma_cell_printable(contacts, ranges, r, i - 1);
        }
    }
}

pub proof fn lemma_count_line(contacts: Seq<Contact>)
    ensures
        is_line(count_line(contacts)),
        count_line(contacts).len() == decimal(contacts.len()).len() + 21,
        forall|c: int|
            decimal(contacts.len()).len() + 10 <= c < count_line(contacts).len() - 1
                ==> #[trigger] count_line(contacts)[c] == ' ',
{
    reveal_strlit("contacts: ");
    reveal_strlit("          \n");
    lemma_decimal_printable(contacts.len());
}

pub proof fn lemma_contact_line(contact: Contact)
    ensures
        is_line(contact_line(contact)),
        43 <= contact_line(contact).len(),
        forall|c: int|
            41 <= c < contact_line(contact).len() - 1 ==> #[trigger] contact_line(contact)[c]
                == ' ',
{
    reveal_strlit("  id=");
    reveal_strlit(" x=");
    reveal_strlit(" y=");
    reveal_strlit("                    \n");
    lemma_decimal_printable(contact.id as nat);
    lemma_decimal_printable(contact.x as nat);
    lemma_decimal_printable(contact.y as nat);
    lemma_decimal_length(contact.id);
    lemma_decimal_length(contact.x);
    lemma_decimal_length(contact.y);
}

pub proof fn lemma_blank_line()
    ensures
        is_line(blank_line()),
        blank_line().len() == 61,
        forall|c: int| 0 <= c < 60 ==> #[trigger] blank_line()[c] == ' ',
{
    reveal_strlit("                                                            \n");
}

/// A frame moves the cursor home and then consists of lines and nothing else:
/// it holds no other escape sequence, so it clears nothing. It has two border
/// lines, the lines of the grid, the line with the count, one line for each
/// finger that touches the pad, and two blank lines.
pub proof fn law_a_frame_is_drawn_in_place(contacts: Seq<Contact>, ranges: AxisRanges)
    ensures
        frame(contacts, ranges) == seq!['\x1B', '[', 'H'] + joined(frame_lines(contacts, ranges)),
        frame_lines(contacts, ranges).len() == GRID_H + contacts.len() + 5,
        forall|i: int|
            0 <= i < frame_lines(contacts, ranges).len() ==> is_line(
                #[trigger] frame_lines(contacts, ranges)[i],
            ),
{
    let grid = Seq::new(GRID_H as nat, |r: int| grid_line(contacts, ranges, r));
    let list = Seq::new(contacts.len(), |i: int| contact_line(contacts[i]));
    let top = seq![border()];
    let middle = seq![border(), count_line(contacts)];
    let bottom = seq![blank_line(), blank_line()];
    let lines = frame_lines(contacts, ranges);
    reveal_strlit("\x1B[H");
    assert("\x1B[H"@ =~= seq!['\x1B', '[', 'H']);

    lemma_joined_concat(top, grid);
    lemma_joined_concat(top + grid, middle);
    lemma_joined_concat(top + grid + middle, list);
    lemma_joined_concat(top + grid + middle + list, bottom);
    lemma_joined_grid(contacts, ranges, GRID_H as nat);
    lemma_joined_contacts(contacts);
    lemma_joined_pair(border(), count_line(contacts));
    lemma_joined_pair(blank_line(), blank_line());
    assert(joined(top) =~= border()) by {
        reveal_with_fuel(joined, 2);
        assert(top.drop_last() =~= Seq::empty());
    }
    assert(frame(contacts, ranges) =~= seq!['\x1B', '[', 'H'] + joined(lines));

    lemma_border_line();
    lemma_count_line(contacts);
    lemma_blank_line();
    assert forall|i: int| 0 <= i < lines.len() implies is_line(#[trigger] lines[i]) by {
        if 1 <= i <= GRID_H {
            lemma_grid_line(contacts, ranges, i - 1);
            assert(lines[i] == grid_line(contacts, ranges, i - 1));
        } else if GRID_H + 3 <= i < GRID_H + 3 + contacts.len() {
            lemma_contact_line(contacts[i - (GRID_H + 3)]);
            assert(lines[i] == contact_line(contacts[i - (GRID_H + 3)]));
        }
    }
}

proof fn lemma_joined_pair(line1: Seq<char>, line2: Seq<char>)
    ensures
        joined(seq![line1, line2]) == line1 + line2,
{
    reveal_with_fuel(joined, 3);
    assert(seq![line1, line2].drop_last() =~= seq![line1]);
    assert(seq![line1].drop_last() =~= Seq::empty());
    assert(joined(seq![line1, line2]) =~= line1 + line2);
}

/// The border and the lines of the grid are equally wide in every frame, and
/// the cell in row `r` and column `c` of the grid stands right there between
/// the bars of line `r + 1`.
pub proof fn law_cells_stand_in_their_place(
    contacts: Seq<Contact>,
    ranges: AxisRanges,
    r: int,
    c: int,
)
    requires
        0 <= r < GRID_H,
        0 <= c < GRID_W,
    ensures
        frame_lines(contacts, ranges)[0].len() == GRID_W + 3,
        frame_lines(contacts, ranges)[r + 1].len() == GRID_W + 3,
        frame_lines(contacts, ranges)[GRID_H + 1].len() == GRID_W + 3,
        frame_lines(contacts, ranges)[r + 1][c + 1] == cell(contacts, ranges, r, c),
{
    lemma_border_line();
    lemma_grid_line(contacts, ranges, r);
    assert(frame_lines(contacts, ranges)[r + 1] == grid_line(contacts, ranges, r));
}

/// A finger is drawn where its coordinates, read in two's complement, lie in the
/// ranges of the device: `x` from left to right and `y` from top to bottom. What
/// lies before a range is drawn in the first column or row and what lies past it
/// in the last, and what lies within it at most one column or row off its exact
/// place; on a range of up to 32767 units it is drawn in the nearest one.
pub proof fn law_a_finger_is_drawn_at_its_place(
    contact: Contact,
    ranges: AxisRanges,
    x: int,
    y: int,
)
    requires
        x == contact.x || x == contact.x - 0x1_0000_0000,
        -0x8000_0000 <= x < 0x8000_0000,
        y == contact.y || y == contact.y - 0x1_0000_0000,
        -0x8000_0000 <= y < 0x8000_0000,
    ensures
        x <= ranges.x_min ==> column(contact, ranges) == 0,
        x > ranges.x_min && x >= ranges.x_max ==> column(contact, ranges) == 79,
        ranges.x_min < x < ranges.x_max ==> ({
            let width = ranges.x_max - ranges.x_min;
            let miss = column(contact, ranges) * width - 79 * (x - ranges.x_min);
            &&& -width <= miss <= width
            &&& width <= 32767 ==> -width <= 2 * miss <= width
            &&& column(contact, ranges) == grid_index(x - ranges.x_min, width, 79)
        }),
        y <= ranges.y_min ==> row(contact, ranges) == 0,
        y > ranges.y_min && y >= ranges.y_max ==> row(contact, ranges) == 19,
        ranges.y_min < y < ranges.y_max ==> ({
            let height = ranges.y_max - ranges.y_min;
            let miss = row(contact, ranges) * height - 19 * (y - ranges.y_min);
            &&& -height <= miss <= height
            &&& height <= 32767 ==> -height <= 2 * miss <= height
            &&& row(contact, ranges) == grid_index(y - ranges.y_min, height, 19)
        }),
{
    assert(signed(contact.x) == x && signed(contact.y) == y);
    let width = span(ranges.x_min as int, ranges.x_max as int);
    let height = span(ranges.y_min as int, ranges.y_max as int);
    law_place_covers_the_axis(x - ranges.x_min, width, 79);
    law_place_covers_the_axis(y - ranges.y_min, height, 19);
    if ranges.x_min < x < ranges.x_max {
        law_place_is_near(x - ranges.x_min, width, 79);
        if width <= 32767 {
            law_place_is_nearest(x - ranges.x_min, width, 79);
        }
    }
    if ranges.y_min < y < ranges.y_max {
        law_place_is_near(y - ranges.y_min, height, 19);
        if height <= 32767 {
            law_place_is_nearest(y - ranges.y_min, height, 19);
        }
    }
}

/// A finger further right on the pad is never drawn left of one that is less far
/// right, and a finger further down never above one that is less far down.
pub proof fn law_the_grid_keeps_the_order_of_the_pad(
    contact1: Contact,
    contact2: Contact,
    ranges: AxisRanges,
    x1: int,
    x2: int,
    y1: int,
    y2: int,
)
    requires
        x1 == contact1.x || x1 == contact1.x - 0x1_0000_0000,
        x2 == contact2.x || x2 == contact2.x - 0x1_0000_0000,
        y1 == contact1.y || y1 == contact1.y - 0x1_0000_0000,
        y2 == contact2.y || y2 == contact2.y - 0x1_0000_0000,
        -0x8000_0000 <= x1 < 0x8000_0000,
        -0x8000_0000 <= x2 < 0x8000_0000,
        -0x8000_0000 <= y1 < 0x8000_0000,
        -0x8000_0000 <= y2 < 0x8000_0000,
    ensures
        x1 <= x2 ==> column(contact1, ranges) <= column(contact2, ranges),
        y1 <= y2 ==> row(contact1, ranges) <= row(contact2, ranges),
{
    let width = span(ranges.x_min as int, ranges.x_max as int);
    let height = span(ranges.y_min as int, ranges.y_max as int);
    if x1 <= x2 {
        law_place_keeps_order(x1 - ranges.x_min, x2 - ranges.x_min, width, 79);
    }
    if y1 <= y2 {
        law_place_keeps_order(y1 - ranges.y_min, y2 - ranges.y_min, height, 19);
    }
}

/// Contacts can be drawn where the widths of the two ranges, and the distances of
/// the touching fingers from the start of the ranges, are 32-bit numbers.
pub proof fn law_contacts_can_be_drawn_within_32_bits(
    contacts: Map<u16, Contact>,
    ranges: AxisRanges,
)
    ensures
        renderable(contacts, ranges) <==> {
            &&& -0x8000_0000 <= ranges.x_max - ranges.x_min <= 0x7fff_ffff
            &&& -0x8000_0000 <= ranges.y_max - ranges.y_min <= 0x7fff_ffff
            &&& forall|link: u16| #[trigger]
                contacts.contains_key(link) && contacts[link].tip != 0 ==> {
                    &&& -0x8000_0000 <= (if contacts[link].x < 0x8000_0000 {
                        contacts[link].x as int
                    } else {
                        contacts[link].x - 0x1_0000_0000
                    }) - ranges.x_min <= 0x7fff_ffff
                    &&& -0x8000_0000 <= (if contacts[link].y < 0x8000_0000 {
                        contacts[link].y as int
                    } else {
                        contacts[link].y - 0x1_0000_0000
                    }) - ranges.y_min <= 0x7fff_ffff
                }
        },
{
}

/// The contacts that are drawn are those of the slots that touch the pad, each
/// once and in ascending order.
pub proof fn law_the_touching_contacts_are_drawn(contacts: Map<u16, Contact>, links: Seq<u16>)
    requires
        forall|i: int, j: int| 0 <= i < j < links.len() ==> links[i] < links[j],
        forall|link: u16| #[trigger]
            links.contains(link) <==> contacts.contains_key(link) && contacts[link].tip != 0,
    ensures
        active(contacts).len() == links.len(),
        forall|i: int|
            0 <= i < links.len() ==> #[trigger] active(contacts)[i] == contacts[links[i]],
{
    let found = active_links(contacts);
    let down = Map::new(|link: u16| touches(contacts, link), |link: u16| contacts[link]);
    law_touching_slots_are_drawn_in_order(contacts);
    assert forall|i: int| 0 <= i < links.len() implies down.contains_key(#[trigger] links[i]) by {
        assert(links.contains(links[i]));
    }
    assert forall|i: int| 0 <= i < found.len() implies down.contains_key(#[trigger] found[i]) by {
        assert(found.contains(found[i]));
    }
    lemma_links_of(down, links);
    lemma_links_of(down, found);
}

/// The character that shows a finger is the last hexadecimal digit of its
/// number.
pub proof fn law_a_finger_is_shown_by_its_last_digit(contact: Contact)
    ensures
        label(contact) == "0123456789ABCDEF"@[(contact.id % 16) as int],
{
    law_digits_stand_for_their_numbers((contact.id % 16) as nat);
}

/// Behind the sequence that moves the cursor home a frame has a border, the 20
/// rows of the grid between bars, and a border again, all of them 82 characters
/// wide and ended by a newline; so each cell stands at a fixed place.
pub proof fn law_the_grid_stands_at_fixed_places(contacts: Seq<Contact>, ranges: AxisRanges)
    ensures
        frame(contacts, ranges).len() >= 3 + 83 * 22,
        frame(contacts, ranges)[0] == '\x1B',
        frame(contacts, ranges)[1] == '[',
        frame(contacts, ranges)[2] == 'H',
        forall|i: int|
            #![trigger frame(contacts, ranges)[3 + i]]
            #![trigger frame(contacts, ranges)[3 + 83 * 21 + i]]
            0 <= i < 83 ==> {
                &&& frame(contacts, ranges)[3 + i] == frame(contacts, ranges)[3 + 83 * 21 + i]
                &&& frame(contacts, ranges)[3 + i] == if i == 0 || i == 81 {
                    '+'
                } else if i == 82 {
                    '\n'
                } else {
                    '-'
                }
            },
        forall|r: int|
            0 <= r < 20 ==> {
                &&& #[trigger] frame(contacts, ranges)[3 + 83 * (r + 1)] == '|'
                &&& frame(contacts, ranges)[3 + 83 * (r + 1) + 81] == '|'
                &&& frame(contacts, ranges)[3 + 83 * (r + 1) + 82] == '\n'
            },
        forall|r: int, c: int|
            0 <= r < 20 && 0 <= c < 80 ==> #[trigger] frame(contacts, ranges)[3 + 83 * (r + 1) + 1
                + c] == cell(contacts, ranges, r, c),
{
    let text = frame(contacts, ranges);
    let grid = grid_lines(contacts, ranges, 20);
    let behind = border() + "contacts: "@ + decimal(contacts.len()) + "          \n"@
        + contact_lines(contacts) + blank_line() + blank_line();
    reveal_strlit("\x1B[H");
    reveal_strlit("+");
    reveal_strlit("+\n");
    reveal_strlit("|");
    reveal_strlit("|\n");
    assert(text =~= "\x1B[H"@ + border() + grid + behind);
    lemma_grid_lines_placed(contacts, ranges, 20);
    assert(forall|i: int| 0 <= i < 83 ==> text[3 + i] == #[trigger] border()[i]);
    assert(forall|i: int| 0 <= i < 83 ==> text[3 + 83 * 21 + i] == #[trigger] border()[i]);
    assert forall|r: int, i: int| 0 <= r < 20 && 0 <= i < 83 implies #[trigger] text[3 + 83 * (r
        + 1) + i] == grid_line(contacts, ranges, r)[i] by {
        assert(grid[83 * r + i] == grid_line(contacts, ranges, r)[i]);
    }
    assert forall|r: int| 0 <= r < 20 implies {
        &&& #[trigger] text[3 + 83 * (r + 1)] == '|'
        &&& text[3 + 83 * (r + 1) + 81] == '|'
        &&& text[3 + 83 * (r + 1) + 82] == '\n'
    } by {
        assert(text[3 + 83 * (r + 1) + 0] == grid_line(contacts, ranges, r)[0]);
        assert(text[3 + 83 * (r + 1) + 81] == grid_line(contacts, ranges, r)[81]);
        assert(text[3 + 83 * (r + 1) + 82] == grid_line(contacts, ranges, r)[82]);
    }
    assert forall|r: int, c: int| 0 <= r < 20 && 0 <= c < 80 implies #[trigger] text[3 + 83 * (r
        + 1) + 1 + c] == cell(contacts, ranges, r, c) by {
        assert(text[3 + 83 * (r + 1) + (1 + c)] == grid_line(contacts, ranges, r)[1 + c]);
        assert(grid_line(contacts, ranges, r)[1 + c] == cell(contacts, ranges, r, c));
    }
}

/// The lines of the grid are equally wide.
proof fn lemma_grid_lines_placed(contacts: Seq<Contact>, ranges: AxisRanges, count: nat)
    ensures
        grid_lines(contacts, ranges, count).len() == 83 * count,
        forall|r: int, i: int|
            0 <= r < count && 0 <= i < 83 ==> #[trigger] grid_lines(contacts, ranges, count)[83 * r
                + i] == grid_line(contacts, ranges, r)[i],
    decreases count,
{
    reveal_strlit("|");
    reveal_strlit("|\n");
    if count > 0 {
        let before = grid_lines(contacts, ranges, (count - 1) as nat);
        lemma_grid_lines_placed(contacts, ranges, (count - 1) as nat);
        assert forall|r: int, i: int| 0 <= r < count && 0 <= i < 83 implies #[trigger] grid_lines(
            contacts,
            ranges,
            count,
        )[83 * r + i] == grid_line(contacts, ranges, r)[i] by {
            if r < count - 1 {
                assert(before[83 * r + i] == grid_line(contacts, ranges, r)[i]);
            }
        }
    }
}

/// A touching finger shows in the frame at its row and column, by the last
/// hexadecimal digit of its number, unless a finger in a higher slot is drawn
/// there; a cell where no touching finger is drawn shows a dot.
pub proof fn law_a_finger_shows_in_its_cell(
    contacts: Map<u16, Contact>,
    ranges: AxisRanges,
    link: u16,
    r: int,
    c: int,
)
    requires
        0 <= r < 20,
        0 <= c < 80,
    ensures
        contacts.contains_key(link) && contacts[link].tip != 0 && row(contacts[link], ranges) == r
            && column(contacts[link], ranges) == c && (forall|other: u16|
            other > link && #[trigger] contacts.contains_key(other) && contacts[other].tip != 0
                ==> !(row(contacts[other], ranges) == r && column(contacts[other], ranges) == c))
            ==> frame(active(contacts), ranges)[3 + 83 * (r + 1) + 1 + c]
            == "0123456789ABCDEF"@[(contacts[link].id % 16) as int],
        (forall|other: u16| #[trigger]
            contacts.contains_key(other) && contacts[other].tip != 0 ==> !(row(
                contacts[other],
                ranges,
            ) == r && column(contacts[other], ranges) == c)) ==> frame(active(contacts), ranges)[3
            + 83 * (r + 1) + 1 + c] == '.',
{
    law_the_grid_stands_at_fixed_places(active(contacts), ranges);
    law_the_highest_slot_shows(contacts, ranges, link, r, c);
    law_a_finger_is_shown_by_its_last_digit(contacts[link]);
}

/// Below the grid stands the line with the count, which reads back as the number
/// of touching fingers, then the line of each finger in turn, then two lines of
/// 60 spaces.
pub proof fn law_the_list_stands_below_the_grid(
    contacts: Seq<Contact>,
    ranges: AxisRanges,
) -> (count: Seq<char>)
    ensures
        is_number(count, contacts.len()),
        frame_lines(contacts, ranges).len() == 25 + contacts.len(),
        frame_lines(contacts, ranges)[22] == "contacts: "@ + count + "          \n"@,
        forall|i: int|
            0 <= i < contacts.len() ==> #[trigger] frame_lines(contacts, ranges)[23 + i]
                == contact_line(contacts[i]),
        forall|i: int|
            contacts.len() <= i < contacts.len() + 2 ==> #[trigger] frame_lines(
                contacts,
                ranges,
            )[23 + i] == Seq::new(60, |c: int| ' ').push('\n'),
{
    let lines = frame_lines(contacts, ranges);
    let count = decimal(contacts.len());
    law_numbers_read_back(contacts.len(), count);
    reveal_strlit("                                                            \n");
    assert(blank_line() =~= Seq::new(60, |c: int| ' ').push('\n'));
    assert(lines[22] == count_line(contacts));
    assert forall|i: int| 0 <= i < contacts.len() implies #[trigger] lines[23 + i] == contact_line(
        contacts[i],
    ) by {}
    count
}

/// The spaces that align a number of this length to the right in five columns.
pub open spec fn spaces_before(len: nat) -> Seq<char> {
    Seq::new(
        if len < 5 {
            (5 - len) as nat
        } else {
            0
        },
        |i: int| ' ',
    )
}

/// The line of a finger reads back: its number, then its `x` and then its `y`,
/// these two right-aligned in five columns, and twenty spaces at the end.
pub proof fn law_a_list_line_reads_back(contact: Contact) -> (numbers: (
    Seq<char>,
    Seq<char>,
    Seq<char>,
))
    ensures
        is_number(numbers.0, contact.id as nat),
        is_number(numbers.1, contact.x as nat),
        is_number(numbers.2, contact.y as nat),
        contact_line(contact) == "  id="@ + numbers.0 + " x="@ + spaces_before(numbers.1.len())
            + numbers.1 + " y="@ + spaces_before(numbers.2.len()) + numbers.2
            + "                    \n"@,
{
    let id = decimal(contact.id as nat);
    let x = decimal(contact.x as nat);
    let y = decimal(contact.y as nat);
    law_numbers_read_back(contact.id as nat, id);
    law_numbers_read_back(contact.x as nat, x);
    law_numbers_read_back(contact.y as nat, y);
    assert(contact_line(contact) =~= "  id="@ + id + " x="@ + spaces_before(x.len()) + x + " y="@
        + spaces_before(y.len()) + y + "                    \n"@);
    (id, x, y)
}

/// A word that ends at the first space is the same in equal texts.
proof fn lemma_same_word(word1: Seq<char>, rest1: Seq<char>, word2: Seq<char>, rest2: Seq<char>)
    requires
        word1 + rest1 == word2 + rest2,
        rest1.len() > 0 && rest1[0] == ' ',
        rest2.len() > 0 && rest2[0] == ' ',
        forall|i: int| 0 <= i < word1.len() ==> #[trigger] word1[i] != ' ',
        forall|i: int| 0 <= i < word2.len() ==> #[trigger] word2[i] != ' ',
    ensures
        word1 == word2,
        rest1 == rest2,
{
    let text = word1 + rest1;
    if word1.len() < word2.len() {
        assert(text[word1.len() as int] == rest1[0]);
        assert((word2 + rest2)[word1.len() as int] == word2[word1.len() as int]);
    } else if word2.len() < word1.len() {
        assert((word2 + rest2)[word2.len() as int] == rest2[0]);
        assert(text[word2.len() as int] == word1[word2.len() as int]);
    }
    lemma_same_head(word1, rest1, word2, rest2);
}

/// Equal texts with heads of equal length have equal heads and rests.
proof fn lemma_same_head(head1: Seq<char>, rest1: Seq<char>, head2: Seq<char>, rest2: Seq<char>)
    requires
        head1 + rest1 == head2 + rest2,
        head1.len() == head2.len(),
    ensures
        head1 == head2,
        rest1 == rest2,
{
    assert(head1 =~= (head1 + rest1).take(head1.len() as int));
    assert(head2 =~= (head2 + rest2).take(head2.len() as int));
    assert(rest1 =~= (head1 + rest1).skip(head1.len() as int));
    assert(rest2 =~= (head2 + rest2).skip(head2.len() as int));
}

/// An aligned number is the same in equal texts.
proof fn lemma_same_aligned(word1: Seq<char>, rest1: Seq<char>, word2: Seq<char>, rest2: Seq<char>)
    requires
        spaces_before(word1.len()) + (word1 + rest1) == spaces_before(word2.len()) + (word2
            + rest2),
        word1.len() > 0,
        word2.len() > 0,
        rest1.len() > 0 && rest1[0] == ' ',
        rest2.len() > 0 && rest2[0] == ' ',
        forall|i: int| 0 <= i < word1.len() ==> #[trigger] word1[i] != ' ',
        forall|i: int| 0 <= i < word2.len() ==> #[trigger] word2[i] != ' ',
    ensures
        word1 == word2,
        rest1 == rest2,
{
    let spaces1 = spaces_before(word1.len());
    let spaces2 = spaces_before(word2.len());
    let text1 = spaces1 + (word1 + rest1);
    let text2 = spaces2 + (word2 + rest2);
    if spaces1.len() < spaces2.len() {
        assert(text1[spaces1.len() as int] == word1[0]);
        assert(text2[spaces1.len() as int] == spaces2[spaces1.len() as int]);
    } else if spaces2.len() < spaces1.len() {
        assert(text2[spaces2.len() as int] == word2[0]);
        assert(text1[spaces2.len() as int] == spaces1[spaces2.len() as int]);
    }
    lemma_same_head(spaces1, word1 + rest1, spaces2, word2 + rest2);
    lemma_same_word(word1, rest1, word2, rest2);
}

/// The parts of a line, put together from the end.
proof fn lemma_regrouped(
    a: Seq<char>,
    id: Seq<char>,
    b: Seq<char>,
    spaces_x: Seq<char>,
    x: Seq<char>,
    c: Seq<char>,
    spaces_y: Seq<char>,
    y: Seq<char>,
    end: Seq<char>,
)
    ensures
        a + id + b + spaces_x + x + c + spaces_y + y + end == a + (id + (b + (spaces_x + (x + (c + (
        spaces_y + (y + end))))))),
{
    assert(a + id + b + spaces_x + x + c + spaces_y + y + end =~= a + (id + (b + (spaces_x + (x + (c
        + (spaces_y + (y + end))))))));
}

/// Numbers hold no space.
proof fn lemma_number_holds_no_space(text: Seq<char>, n: nat)
    requires
        is_number(text, n),
    ensures
        forall|i: int| 0 <= i < text.len() ==> #[trigger] text[i] != ' ',
{
    assert forall|i: int| 0 <= i < text.len() implies #[trigger] text[i] != ' ' by {
        assert('0' <= text[i] <= '9');
    }
}

/// Fingers with the same line in the list have the same number, the same `x` and
/// the same `y`.
pub proof fn law_list_lines_tell_fingers_apart(contact1: Contact, contact2: Contact)
    requires
        contact_line(contact1) == contact_line(contact2),
    ensures
        contact1.id == contact2.id,
        contact1.x == contact2.x,
        contact1.y == contact2.y,
{
    let (id1, x1, y1) = law_a_list_line_reads_back(contact1);
    let (id2, x2, y2) = law_a_list_line_reads_back(contact2);
    let (a, b, c, end) = ("  id="@, " x="@, " y="@, "                    \n"@);
    let (sx1, sy1) = (spaces_before(x1.len()), spaces_before(y1.len()));
    let (sx2, sy2) = (spaces_before(x2.len()), spaces_before(y2.len()));
    lemma_regrouped(a, id1, b, sx1, x1, c, sy1, y1, end);
    lemma_regrouped(a, id2, b, sx2, x2, c, sy2, y2, end);
    lemma_number_holds_no_space(id1, contact1.id as nat);
    lemma_number_holds_no_space(x1, contact1.x as nat);
    lemma_number_holds_no_space(y1, contact1.y as nat);
    lemma_number_holds_no_space(id2, contact2.id as nat);
    lemma_number_holds_no_space(x2, contact2.x as nat);
    lemma_number_holds_no_space(y2, contact2.y as nat);
    lemma_same_parts(a, id1, b, x1, c, y1, end, id2, x2, y2);
}

/// The numbers in equal lines are equal.
#[verifier::spinoff_prover]
proof fn lemma_same_parts(
    a: Seq<char>,
    id1: Seq<char>,
    b: Seq<char>,
    x1: Seq<char>,
    c: Seq<char>,
    y1: Seq<char>,
    end: Seq<char>,
    id2: Seq<char>,
    x2: Seq<char>,
    y2: Seq<char>,
)
    requires
        a == "  id="@,
        b == " x="@,
        c == " y="@,
        end == "                    \n"@,
        x1.len() > 0 && x2.len() > 0 && y1.len() > 0 && y2.len() > 0,
        forall|i: int| 0 <= i < id1.len() ==> #[trigger] id1[i] != ' ',
        forall|i: int| 0 <= i < id2.len() ==> #[trigger] id2[i] != ' ',
        forall|i: int| 0 <= i < x1.len() ==> #[trigger] x1[i] != ' ',
        forall|i: int| 0 <= i < x2.len() ==> #[trigger] x2[i] != ' ',
        forall|i: int| 0 <= i < y1.len() ==> #[trigger] y1[i] != ' ',
        forall|i: int| 0 <= i < y2.len() ==> #[trigger] y2[i] != ' ',
        a + (id1 + (b + (spaces_before(x1.len()) + (x1 + (c + (spaces_before(y1.len()) + (y1
            + end))))))) == a + (id2 + (b + (spaces_before(x2.len()) + (x2 + (c + (spaces_before(
            y2.len(),
        ) + (y2 + end))))))),
    ensures
        id1 == id2,
        x1 == x2,
        y1 == y2,
{
    let y_rest1 = spaces_before(y1.len()) + (y1 + end);
    let y_rest2 = spaces_before(y2.len()) + (y2 + end);
    let x_rest1 = spaces_before(x1.len()) + (x1 + (c + y_rest1));
    let x_rest2 = spaces_before(x2.len()) + (x2 + (c + y_rest2));
    reveal_strlit(" x=");
    reveal_strlit(" y=");
    reveal_strlit("                    \n");
    assert((b + x_rest1)[0] == ' ' && (b + x_rest2)[0] == ' ');
    assert((c + y_rest1)[0] == ' ' && (c + y_rest2)[0] == ' ');
    lemma_same_head(a, id1 + (b + x_rest1), a, id2 + (b + x_rest2));
    lemma_same_word(id1, b + x_rest1, id2, b + x_rest2);
    lemma_same_head(b, x_rest1, b, x_rest2);
    lemma_same_aligned(x1, c + y_rest1, x2, c + y_rest2);
    lemma_same_head(c, y_rest1, c, y_rest2);
    lemma_same_aligned(y1, end, y2, end);
}

} // verus!
