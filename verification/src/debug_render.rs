//! The live touch surface as a bordered character grid.

use std::collections::BTreeMap;
use vstd::prelude::*;
use vstd::string::StringExecFns;

use crate::axis::{grid_index, offset_fits, place, signed, span, span_fits};
use crate::contact::{contact_in, lemma_links_below_listed, links_of, sorted_links, Contact};
use crate::hid::AxisRanges;
use crate::text::{decimal, hex_digit, hex_digit_char, padded, push_decimal, push_decimal_padded};

verus! {

/// The width of the grid.
pub const GRID_W: usize = 80;

/// The height of the grid.
pub const GRID_H: usize = 20;

/// The contacts of the given slots whose tip touches the pad, in the order of
/// the slots.
pub open spec fn touching(contacts: Map<u16, Contact>, links: Seq<u16>) -> Seq<Contact>
    decreases links.len(),
{
    if links.len() == 0 {
        Seq::empty()
    } else {
        let before = touching(contacts, links.drop_last());
        let contact = contacts[links.last()];
        if contact.tip != 0 {
            before.push(contact)
        } else {
            before
        }
    }
}

/// All contacts whose tip touches the pad, by ascending slot.
pub open spec fn active(contacts: Map<u16, Contact>) -> Seq<Contact> {
    touching(contacts, links_of(contacts))
}

/// The column of the grid in which a contact is drawn.
pub open spec fn column(contact: Contact, ranges: AxisRanges) -> nat {
    grid_index(
        signed(contact.x) - ranges.x_min,
        span(ranges.x_min as int, ranges.x_max as int),
        (GRID_W - 1) as nat,
    )
}

/// The row of the grid in which a contact is drawn.
pub open spec fn row(contact: Contact, ranges: AxisRanges) -> nat {
    grid_index(
        signed(contact.y) - ranges.y_min,
        span(ranges.y_min as int, ranges.y_max as int),
        (GRID_H - 1) as nat,
    )
}

/// The character that stands for a contact: the last hexadecimal digit of its
/// number.
pub open spec fn label(contact: Contact) -> char {
    hex_digit((contact.id % 16) as nat)
}

/// The character in one cell of the grid: the label of the last of the
/// contacts that is drawn there, or a dot.
pub open spec fn cell(contacts: Seq<Contact>, ranges: AxisRanges, r: int, c: int) -> char
    decreases contacts.len(),
{
    if contacts.len() == 0 {
        '.'
    } else if row(contacts.last(), ranges) == r && column(contacts.last(), ranges) == c {
        label(contacts.last())
    } else {
        cell(contacts.drop_last(), ranges, r, c)
    }
}

/// The distances that place this contact on the grid are 32-bit numbers.
pub open spec fn placeable(contact: Contact, ranges: AxisRanges) -> bool {
    offset_fits(contact.x, ranges.x_min) && offset_fits(contact.y, ranges.y_min)
}

/// The widths of the ranges, and the distances that place the touching contacts
/// on the grid, are 32-bit numbers.
pub open spec fn renderable(contacts: Map<u16, Contact>, ranges: AxisRanges) -> bool {
    &&& span_fits(ranges.x_min, ranges.x_max)
    &&& span_fits(ranges.y_min, ranges.y_max)
    &&& forall|link: u16| #[trigger]
        contacts.contains_key(link) && contacts[link].tip != 0 ==> placeable(
            contacts[link],
            ranges,
        )
}

/// The top and the bottom line.
pub open spec fn border() -> Seq<char> {
    "+"@ + Seq::new(GRID_W as nat, |i: int| '-') + "+\n"@
}

/// One line of the grid.
pub open spec fn grid_line(contacts: Seq<Contact>, ranges: AxisRanges, r: int) -> Seq<char> {
    "|"@ + Seq::new(GRID_W as nat, |c: int| cell(contacts, ranges, r, c)) + "|\n"@
}

/// The first `count` lines of the grid.
pub open spec fn grid_lines(contacts: Seq<Contact>, ranges: AxisRanges, count: nat) -> Seq<char>
    decreases count,
{
    if count == 0 {
        Seq::empty()
    } else {
        grid_lines(contacts, ranges, (count - 1) as nat) + grid_line(contacts, ranges, count - 1)
    }
}

/// The line that describes one contact.
pub open spec fn contact_line(contact: Contact) -> Seq<char> {
    "  id="@ + decimal(contact.id as nat) + " x="@ + padded(decimal(contact.x as nat), 5) + " y="@
        + padded(decimal(contact.y as nat), 5) + "                    \n"@
}

/// The lines that describe the contacts.
pub open spec fn contact_lines(contacts: Seq<Contact>) -> Seq<char>
    decreases contacts.len(),
{
    if contacts.len() == 0 {
        Seq::empty()
    } else {
        contact_lines(contacts.drop_last()) + contact_line(contacts.last())
    }
}

/// A line of spaces, which blots out what an earlier frame left there.
pub open spec fn blank_line() -> Seq<char> {
    "                                                            \n"@
}

/// A whole frame, for the contacts that touch the pad.
pub open spec fn frame(contacts: Seq<Contact>, ranges: AxisRanges) -> Seq<char> {
    "\x1B[H"@ + border() + grid_lines(contacts, ranges, GRID_H as nat) + border() + "contacts: "@
        + decimal(contacts.len()) + "          \n"@ + contact_lines(contacts) + blank_line()
        + blank_line()
}

/// The character that stands for a contact with this number.
fn label_char(id: u32) -> (c: char)
    ensures
        c == hex_digit((id % 16) as nat),
{
    assert(id & 0xF == id % 16) by (bit_vector);
    hex_digit_char(id & 0xF)
}

/// The contacts whose tip touches the pad, by ascending slot.
pub fn active_contacts(contacts: &BTreeMap<u16, Contact>) -> (found: Vec<Contact>)
    ensures
        found@ == active(contacts@),
        found@.len() <= 0x1_0000,
        forall|i: int|
            0 <= i < found@.len() ==> (#[trigger] found@[i]).tip != 0 && contacts@.contains_value(
                found@[i],
            ),
{
    let links = sorted_links(contacts);
    let mut found: Vec<Contact> = Vec::new();
    let mut i: usize = 0;
    proof {
        lemma_links_below_listed(contacts@, 0x1_0000);
    }
    while i < links.len()
        invariant
            i <= links.len(),
            links@ == links_of(contacts@),
            forall|j: int|
                0 <= j < links@.len() ==> contacts@.contains_key(#[trigger] links@[j]),
            found@ == touching(contacts@, links@.take(i as int)),
            found@.len() <= i,
            forall|j: int|
                0 <= j < found@.len() ==> (#[trigger] found@[j]).tip != 0
                    && contacts@.contains_value(found@[j]),
        decreases links.len() - i,
    {
        assert(links@.take(i + 1).drop_last() =~= links@.take(i as int));
        assert(contacts@.contains_key(links@[i as int]));
        if let Some(contact) = contact_in(contacts, links[i]) {
            if contact.tip != 0 {
                found.push(contact);
            }
        }
        i += 1;
    }
    assert(links@.take(i as int) =~= links@);
    found
}

/// Whether `max - min` is a 32-bit number.
fn difference_fits(max: i64, min: i64) -> (fits: bool)
    requires
        -0x8000_0000 <= max <= 0x7fff_ffff,
        -0x8000_0000 <= min <= 0x7fff_ffff,
    ensures
        fits == (i32::MIN <= max - min <= i32::MAX),
{
    max - min >= -0x8000_0000 && max - min <= 0x7fff_ffff
}

/// The coordinate that the 32 bits of `value` stand for in two's complement.
fn signed_value(value: u32) -> (coordinate: i64)
    ensures
        coordinate == signed(value),
{
    if value < 0x8000_0000 {
        value as i64
    } else {
        value as i64 - 0x1_0000_0000
    }
}

/// Whether `render_grid` can draw these contacts: whether the widths of the
/// ranges, and the distances that place the touching contacts on the grid, are
/// 32-bit numbers.
pub fn can_render(
    contacts: &BTreeMap<u16, Contact>,
    x_min: i32,
    x_max: i32,
    y_min: i32,
    y_max: i32,
) -> (can: bool)
    ensures
        can == renderable(contacts@, AxisRanges { x_min, x_max, y_min, y_max }),
{
    let ghost ranges = AxisRanges { x_min, x_max, y_min, y_max };
    if !difference_fits(x_max as i64, x_min as i64) || !difference_fits(
        y_max as i64,
        y_min as i64,
    ) {
        return false;
    }
    let found = active_contacts(contacts);
    let mut i: usize = 0;
    while i < found.len()
        invariant
            i <= found.len(),
            found@ == active(contacts@),
            ranges == (AxisRanges { x_min, x_max, y_min, y_max }),
            forall|j: int|
                0 <= j < found@.len() ==> (#[trigger] found@[j]).tip != 0
                    && contacts@.contains_value(found@[j]),
            forall|j: int| 0 <= j < i ==> placeable(#[trigger] found@[j], ranges),
        decreases found.len() - i,
    {
        let contact = &found[i];
        if !difference_fits(signed_value(contact.x), x_min as i64) || !difference_fits(
            signed_value(contact.y),
            y_min as i64,
        ) {
            proof {
                let at = choose|link: u16| #[trigger]
                    contacts@.contains_key(link) && contacts@[link] == found@[i as int];
                assert(contacts@.contains_value(found@[i as int]));
                assert(contacts@.contains_key(at) && !placeable(contacts@[at], ranges));
            }
            return false;
        }
        i += 1;
    }
    proof {
        assert forall|link: u16| #[trigger]
            contacts@.contains_key(link) && contacts@[link].tip != 0 implies placeable(
            contacts@[link],
            ranges,
        ) by {
            lemma_active_contains(contacts@, link);
            let at = choose|j: int| 0 <= j < found@.len() && found@[j] == contacts@[link];
            assert(placeable(found@[at], ranges));
        }
    }
    true
}

/// Every touching contact is among the active ones.
proof fn lemma_active_contains(contacts: Map<u16, Contact>, link: u16)
    requires
        contacts.contains_key(link),
        contacts[link].tip != 0,
    ensures
        active(contacts).contains(contacts[link]),
{
    lemma_links_below_listed(contacts, 0x1_0000);
    assert(links_of(contacts).contains(link));
    lemma_touching_contains(contacts, links_of(contacts), link);
}

/// Every touching contact of the given slots is among the ones that are found.
proof fn lemma_touching_contains(contacts: Map<u16, Contact>, links: Seq<u16>, link: u16)
    requires
        links.contains(link),
        contacts[link].tip != 0,
    ensures
        touching(contacts, links).contains(contacts[link]),
    decreases links.len(),
{
    let found = touching(contacts, links);
    let before = touching(contacts, links.drop_last());
    let at = choose|i: int| 0 <= i < links.len() && links[i] == link;
    if at == links.len() - 1 {
        assert(found[found.len() - 1] == contacts[link]);
    } else {
        assert(links.drop_last()[at] == link);
        lemma_touching_contains(contacts, links.drop_last(), link);
        let i = choose|i: int| 0 <= i < before.len() && before[i] == contacts[link];
        assert(found[i] == contacts[link]);
    }
}

/// A grid of dots.
fn empty_grid() -> (grid: Vec<Vec<char>>)
    ensures
        grid@.len() == GRID_H,
        forall|r: int| 0 <= r < GRID_H ==> (#[trigger] grid@[r])@.len() == GRID_W,
        forall|r: int, c: int|
            0 <= r < GRID_H && 0 <= c < GRID_W ==> #[trigger] grid@[r]@[c] == '.',
{
    let mut grid: Vec<Vec<char>> = Vec::new();
    while grid.len() < GRID_H
        invariant
            grid@.len() <= GRID_H,
            forall|r: int| 0 <= r < grid@.len() ==> (#[trigger] grid@[r])@.len() == GRID_W,
            forall|r: int, c: int|
                0 <= r < grid@.len() && 0 <= c < GRID_W ==> #[trigger] grid@[r]@[c] == '.',
        decreases GRID_H - grid@.len(),
    {
        let mut line: Vec<char> = Vec::new();
        while line.len() < GRID_W
            invariant
                line@.len() <= GRID_W,
                forall|c: int| 0 <= c < line@.len() ==> line@[c] == '.',
            decreases GRID_W - line@.len(),
        {
            line.push('.');
        }
        grid.push(line);
    }
    grid
}

/// The grid with the contacts drawn into it in turn.
fn draw(found: &Vec<Contact>, x_min: i32, x_max: i32, y_min: i32, y_max: i32) -> (grid: Vec<
    Vec<char>,
>)
    requires
        span_fits(x_min, x_max),
        span_fits(y_min, y_max),
        forall|i: int|
            0 <= i < found@.len() ==> placeable(
                #[trigger] found@[i],
                AxisRanges { x_min, x_max, y_min, y_max },
            ),
    ensures
        grid@.len() == GRID_H,
        forall|r: int| 0 <= r < GRID_H ==> (#[trigger] grid@[r])@.len() == GRID_W,
        forall|r: int, c: int|
            0 <= r < GRID_H && 0 <= c < GRID_W ==> #[trigger] grid@[r]@[c] == cell(
                found@,
                AxisRanges { x_min, x_max, y_min, y_max },
                r,
                c,
            ),
{
    let ghost ranges = AxisRanges { x_min, x_max, y_min, y_max };
    let mut grid = empty_grid();
    let mut i: usize = 0;
    while i < found.len()
        invariant
            i <= found.len(),
            ranges == (AxisRanges { x_min, x_max, y_min, y_max }),
            span_fits(x_min, x_max),
            span_fits(y_min, y_max),
            forall|j: int| 0 <= j < found@.len() ==> placeable(#[trigger] found@[j], ranges),
            grid@.len() == GRID_H,
            forall|r: int| 0 <= r < GRID_H ==> (#[trigger] grid@[r])@.len() == GRID_W,
            forall|r: int, c: int|
                0 <= r < GRID_H && 0 <= c < GRID_W ==> #[trigger] grid@[r]@[c] == cell(
                    found@.take(i as int),
                    ranges,
                    r,
                    c,
                ),
        decreases found.len() - i,
    {
        let contact = &found[i];
        assert(placeable(found@[i as int], ranges));
        let col = place(contact.x, x_min, x_max, GRID_W - 1);
        let row = place(contact.y, y_min, y_max, GRID_H - 1);
        let ch = label_char(contact.id);
        assert(found@.take(i + 1).drop_last() =~= found@.take(i as int));
        grid[row][col] = ch;
        i += 1;
    }
    assert(found@.take(i as int) =~= found@);
    grid
}

/// Appends the top or the bottom line.
fn push_border(out: &mut String)
    ensures
        final(out)@ == old(out)@ + border(),
{
    let ghost start = out@;
    out.append("+");
    let mut i: usize = 0;
    while i < GRID_W
        invariant
            i <= GRID_W,
            out@ == start + "+"@ + Seq::new(i as nat, |j: int| '-'),
        decreases GRID_W - i,
    {
        out.push('-');
        assert(out@ =~= start + "+"@ + Seq::new((i + 1) as nat, |j: int| '-'));
        i += 1;
    }
    out.append("+\n");
    assert(out@ =~= start + border());
}

/// Appends one line of the grid.
fn push_grid_line(out: &mut String, line: &Vec<char>)
    ensures
        final(out)@ == old(out)@ + ("|"@ + line@ + "|\n"@),
{
    let ghost start = out@;
    out.append("|");
    let mut i: usize = 0;
    while i < line.len()
        invariant
            i <= line.len(),
            out@ == start + "|"@ + line@.take(i as int),
        decreases line.len() - i,
    {
        out.push(line[i]);
        assert(out@ =~= start + "|"@ + line@.take(i + 1));
        i += 1;
    }
    assert(line@.take(i as int) =~= line@);
    out.append("|\n");
    assert(out@ =~= start + ("|"@ + line@ + "|\n"@));
}

/// Appends the line that describes one contact.
fn push_contact_line(out: &mut String, contact: &Contact)
    ensures
        final(out)@ == old(out)@ + contact_line(*contact),
{
    let ghost start = out@;
    out.append("  id=");
    push_decimal(out, contact.id);
    out.append(" x=");
    push_decimal_padded(out, contact.x, 5);
    out.append(" y=");
    push_decimal_padded(out, contact.y, 5);
    out.append("                    \n");
    assert(out@ =~= start + contact_line(*contact));
}

/// Where the contacts can be drawn, each of the touching ones can be placed.
proof fn lemma_active_placeable(contacts: Map<u16, Contact>, ranges: AxisRanges, contact: Contact)
    requires
        renderable(contacts, ranges),
        contacts.contains_value(contact),
        contact.tip != 0,
    ensures
        placeable(contact, ranges),
{
    let link = choose|link: u16| #[trigger]
        contacts.contains_key(link) && contacts[link] == contact;
    assert(contacts.contains_key(link));
}

/// The frame that shows the contacts as a bordered character grid, for a
/// device that reports its axes from `x_min` to `x_max` and from `y_min` to
/// `y_max`.
///
/// The frame starts with the escape sequence that moves the cursor home, so
/// that it is drawn over the one before. Only fingers that touch the pad are
/// shown: in the grid, each by one hexadecimal digit of its number, and in a
/// list below it.
pub fn render_grid(
    contacts: &BTreeMap<u16, Contact>,
    x_min: i32,
    x_max: i32,
    y_min: i32,
    y_max: i32,
) -> (out: String)
    requires
        renderable(contacts@, AxisRanges { x_min, x_max, y_min, y_max }),
    ensures
        out@ == frame(active(contacts@), AxisRanges { x_min, x_max, y_min, y_max }),
{
    let ghost ranges = AxisRanges { x_min, x_max, y_min, y_max };
    let found = active_contacts(contacts);
    proof {
        assert forall|i: int| 0 <= i < found@.len() implies placeable(
            #[trigger] found@[i],
            ranges,
        ) by {
            lemma_active_placeable(contacts@, ranges, found@[i]);
        }
    }
    let grid = draw(&found, x_min, x_max, y_min, y_max);

    let mut out = String::new();
    out.append("\x1B[H");
    push_border(&mut out);
    let ghost top = out@;
    let mut r: usize = 0;
    while r < GRID_H
        invariant
            r <= GRID_H,
            grid@.len() == GRID_H,
            forall|r: int| 0 <= r < GRID_H ==> (#[trigger] grid@[r])@.len() == GRID_W,
            forall|r: int, c: int|
                0 <= r < GRID_H && 0 <= c < GRID_W ==> #[trigger] grid@[r]@[c] == cell(
                    found@,
                    ranges,
                    r,
                    c,
                ),
            out@ == top + grid_lines(found@, ranges, r as nat),
        decreases GRID_H - r,
    {
        push_grid_line(&mut out, &grid[r]);
        assert(grid@[r as int]@ =~= Seq::new(
            GRID_W as nat,
            |c: int| cell(found@, ranges, r as int, c),
        ));
        assert(out@ =~= top + grid_lines(found@, ranges, (r + 1) as nat));
        r += 1;
    }
    push_border(&mut out);
    out.append("contacts: ");
    push_decimal(&mut out, found.len() as u32);
    out.append("          \n");
    let ghost head = out@;
    let mut i: usize = 0;
    while i < found.len()
        invariant
            i <= found.len(),
            out@ == head + contact_lines(found@.take(i as int)),
        decreases found.len() - i,
    {
        assert(found@.take(i + 1).drop_last() =~= found@.take(i as int));
        push_contact_line(&mut out, &found[i]);
        assert(out@ =~= head + contact_lines(found@.take(i + 1)));
        i += 1;
    }
    assert(found@.take(i as int) =~= found@);
    out.append("                                                            \n");
    out.append("                                                            \n");
    assert(out@ =~= frame(found@, ranges));
    out
}

} // verus!
