//! What the frames leave on a terminal.

use vstd::prelude::*;

use crate::contact::{decoded, Contact};
use crate::debug_render::{active, blank_line, border, contact_line, frame, grid_line, GRID_H};
use crate::decoder_laws::{report_frame, report_frames, ReportAnswers};
use crate::frame_laws::{
    count_line, frame_lines, is_line, joined, law_a_frame_is_drawn_in_place, lemma_blank_line,
    lemma_border_line, lemma_contact_line, lemma_count_line, lemma_grid_line, printable,
};
use crate::hid::{ranges_of, AxisRanges, ValueCap};
use crate::text::decimal;

verus! {

/// The character that a frame puts in a row and column, if it puts one there.
pub open spec fn frame_char(
    contacts: Seq<Contact>,
    ranges: AxisRanges,
    r: int,
    c: int,
) -> Option<char> {
    let lines = frame_lines(contacts, ranges);
    if 0 <= r < lines.len() && 0 <= c < lines[r].len() - 1 {
        Some(lines[r][c])
    } else {
        None
    }
}

/// A frame covers the one before it as long as at most two fingers are gone:
/// wherever the earlier frame shows anything but a space, the later one puts a
/// character of its own.
pub proof fn law_a_frame_covers_the_one_before(
    before: Seq<Contact>,
    ranges_before: AxisRanges,
    contacts: Seq<Contact>,
    ranges: AxisRanges,
)
    requires
        before.len() <= contacts.len() + 2,
    ensures
        forall|r: int, c: int|
            (match frame_char(before, ranges_before, r, c) {
                Some(shown) => shown != ' ',
                None => false,
            }) ==> (#[trigger] frame_char(contacts, ranges, r, c)) is Some,
{
    let earlier = frame_lines(before, ranges_before);
    let later = frame_lines(contacts, ranges);
    lemma_border_line();
    lemma_blank_line();
    lemma_count_line(before);
    lemma_count_line(contacts);
    lemma_decimal_grows_slowly(before.len(), contacts.len());
    assert forall|r: int, c: int|
        (match frame_char(before, ranges_before, r, c) {
            Some(shown) => shown != ' ',
            None => false,
        }) implies (#[trigger] frame_char(contacts, ranges, r, c)) is Some by {
        if 1 <= r <= GRID_H {
            lemma_grid_line(before, ranges_before, r - 1);
            lemma_grid_line(contacts, ranges, r - 1);
            assert(earlier[r] == grid_line(before, ranges_before, r - 1));
            assert(later[r] == grid_line(contacts, ranges, r - 1));
        } else if r == GRID_H + 2 {
            assert(earlier[r] == count_line(before));
            assert(later[r] == count_line(contacts));
        } else if r >= GRID_H + 3 {
            let i = r - (GRID_H + 3);
            if i < before.len() {
                lemma_contact_line(before[i]);
                assert(earlier[r] == contact_line(before[i]));
            } else {
                assert(earlier[r] == blank_line());
            }
            if i < contacts.len() {
                lemma_contact_line(contacts[i]);
                assert(later[r] == contact_line(contacts[i]));
            } else {
                assert(later[r] == blank_line());
            }
        } else {
            assert(earlier[r] == border());
            assert(later[r] == border());
        }
    }
}

/// A number that is at most two larger has at most one digit more.
proof fn lemma_decimal_grows_slowly(n: nat, m: nat)
    requires
        n <= m + 2,
    ensures
        decimal(n).len() <= decimal(m).len() + 1,
    decreases n,
{
    reveal_with_fuel(decimal, 2);
    if n >= 10 && m >= 10 {
        lemma_decimal_grows_slowly(n / 10, m / 10);
    }
}

/// A terminal that is large enough for what is written to it: the characters
/// on it by row and column, and the cursor.
pub struct Screen {
    pub cells: Map<(int, int), char>,
    pub row: int,
    pub column: int,
}

/// The escape sequence that moves the cursor to the top left.
pub open spec fn home_sequence() -> Seq<char> {
    seq!['\x1B', '[', 'H']
}

/// The escape sequence that clears the screen.
pub open spec fn clear_sequence() -> Seq<char> {
    seq!['\x1B', '[', '2', 'J']
}

impl Screen {
    /// The character that is seen in a row and column.
    pub open spec fn shows(self, r: int, c: int) -> char {
        if self.cells.contains_key((r, c)) {
            self.cells[(r, c)]
        } else {
            ' '
        }
    }

    /// The screen after one character, at the cursor.
    pub open spec fn typed(self, character: char) -> Screen {
        if character == '\n' {
            Screen { cells: self.cells, row: self.row + 1, column: 0 }
        } else {
            Screen {
                cells: self.cells.insert((self.row, self.column), character),
                row: self.row,
                column: self.column + 1,
            }
        }
    }

    /// The screen with the cursor at the top left.
    pub open spec fn home(self) -> Screen {
        Screen { cells: self.cells, row: 0, column: 0 }
    }

    /// The screen with nothing on it, and the cursor where it was.
    pub open spec fn cleared(self) -> Screen {
        Screen { cells: Map::empty(), row: self.row, column: self.column }
    }

    /// The screen after some text.
    pub open spec fn written(self, text: Seq<char>) -> Screen
        decreases text.len(),
    {
        if text.len() == 0 {
            self
        } else if home_sequence().is_prefix_of(text) {
            self.home().written(text.skip(3))
        } else if clear_sequence().is_prefix_of(text) {
            self.cleared().written(text.skip(4))
        } else {
            self.typed(text[0]).written(text.skip(1))
        }
    }

    /// The screen shows a frame and nothing else.
    pub open spec fn shows_frame(self, contacts: Seq<Contact>, ranges: AxisRanges) -> bool {
        forall|r: int, c: int| #[trigger]
            self.shows(r, c) == (match frame_char(contacts, ranges, r, c) {
                Some(character) => character,
                None => ' ',
            })
    }
}

/// Text without escape sequences is taken character by character.
pub open spec fn is_plain(text: Seq<char>) -> bool {
    forall|i: int| 0 <= i < text.len() ==> #[trigger] text[i] != '\x1B'
}

proof fn lemma_plain_written(screen: Screen, text: Seq<char>, rest: Seq<char>)
    requires
        is_plain(text),
    ensures
        screen.written(text + rest) == screen.written(text).written(rest),
    decreases text.len(),
{
    if text.len() == 0 {
        assert(text + rest =~= rest);
    } else {
        assert(text[0] != '\x1B');
        assert((text + rest)[0] == text[0]);
        assert(!home_sequence().is_prefix_of(text + rest) && !home_sequence().is_prefix_of(text)
            && !clear_sequence().is_prefix_of(text + rest) && !clear_sequence().is_prefix_of(text))
            by {
            assert(home_sequence()[0] == '\x1B' && clear_sequence()[0] == '\x1B');
        }
        assert((text + rest).skip(1) =~= text.skip(1) + rest);
        assert(is_plain(text.skip(1))) by {
            assert forall|i: int| 0 <= i < text.skip(1).len() implies #[trigger] text.skip(1)[i]
                != '\x1B' by {
                assert(text[i + 1] != '\x1B');
            }
        }
        lemma_plain_written(screen.typed(text[0]), text.skip(1), rest);
    }
}

/// One more plain character.
proof fn lemma_plain_typed(screen: Screen, text: Seq<char>, character: char)
    requires
        is_plain(text),
        character != '\x1B',
    ensures
        screen.written(text.push(character)) == screen.written(text).typed(character),
{
    let last = seq![character];
    let before = screen.written(text);
    lemma_plain_written(screen, text, last);
    assert(text + last =~= text.push(character));
    assert(before.written(last) == before.typed(character)) by {
        assert(!home_sequence().is_prefix_of(last) && !clear_sequence().is_prefix_of(last));
        reveal_with_fuel(Screen::written, 2);
        assert(last.skip(1) =~= Seq::<char>::empty());
    }
}

/// The first characters of a line, from the first column on.
proof fn lemma_line_started(screen: Screen, text: Seq<char>)
    requires
        screen.column == 0,
        forall|i: int| 0 <= i < text.len() ==> printable(#[trigger] text[i]),
    ensures
        is_plain(text),
        screen.written(text).row == screen.row,
        screen.written(text).column == text.len(),
        forall|r: int, c: int| #[trigger]
            screen.written(text).shows(r, c) == if r == screen.row && 0 <= c < text.len() {
                text[c]
            } else {
                screen.shows(r, c)
            },
    decreases text.len(),
{
    assert(is_plain(text)) by {
        assert forall|i: int| 0 <= i < text.len() implies #[trigger] text[i] != '\x1B' by {
            assert(printable(text[i]));
        }
    }
    if text.len() > 0 {
        let before = text.drop_last();
        assert forall|i: int| 0 <= i < before.len() implies printable(#[trigger] before[i]) by {
            assert(printable(text[i]));
        }
        assert(printable(text[text.len() - 1]));
        lemma_line_started(screen, before);
        lemma_plain_typed(screen, before, text.last());
        assert(before.push(text.last()) =~= text);
        let started = screen.written(before);
        let after = screen.written(text);
        assert forall|r: int, c: int| #[trigger] after.shows(r, c) == if r == screen.row && 0 <= c
            < text.len() {
            text[c]
        } else {
            screen.shows(r, c)
        } by {
            assert(after.shows(r, c) == if r == screen.row && c == before.len() {
                text.last()
            } else {
                started.shows(r, c)
            });
        }
    }
}

/// Lines from the top left on.
proof fn lemma_lines_written(screen: Screen, lines: Seq<Seq<char>>)
    requires
        screen.row == 0,
        screen.column == 0,
        forall|i: int| 0 <= i < lines.len() ==> is_line(#[trigger] lines[i]),
    ensures
        is_plain(joined(lines)),
        screen.written(joined(lines)).row == lines.len(),
        screen.written(joined(lines)).column == 0,
        forall|r: int, c: int| #[trigger]
            screen.written(joined(lines)).shows(r, c) == if 0 <= r < lines.len() && 0 <= c
                < lines[r].len() - 1 {
                lines[r][c]
            } else {
                screen.shows(r, c)
            },
    decreases lines.len(),
{
    if lines.len() > 0 {
        let before = lines.drop_last();
        let line = lines.last();
        let text = line.drop_last();
        assert forall|i: int| 0 <= i < before.len() implies is_line(#[trigger] before[i]) by {
            assert(is_line(lines[i]));
        }
        assert(is_line(lines[lines.len() - 1]));
        lemma_lines_written(screen, before);
        let above = screen.written(joined(before));
        assert forall|i: int| 0 <= i < text.len() implies printable(#[trigger] text[i]) by {
            assert(printable(line[i]));
        }
        lemma_line_started(above, text);
        lemma_plain_typed(above, text, '\n');
        assert(text.push('\n') =~= line);
        lemma_plain_written(screen, joined(before), line);
        let after = screen.written(joined(lines));
        assert(after == above.written(text).typed('\n'));
        assert forall|i: int| 0 <= i < joined(lines).len() implies #[trigger] joined(lines)[i]
            != '\x1B' by {
            if i < joined(before).len() {
                assert(joined(before)[i] != '\x1B');
            } else if i < joined(lines).len() - 1 {
                assert(text[i - joined(before).len()] != '\x1B');
            }
        }
        assert forall|r: int, c: int| #[trigger] after.shows(r, c) == if 0 <= r < lines.len() && 0
            <= c < lines[r].len() - 1 {
            lines[r][c]
        } else {
            screen.shows(r, c)
        } by {
            assert(after.shows(r, c) == above.written(text).shows(r, c));
            if 0 <= r < before.len() {
                assert(before[r] == lines[r]);
            }
        }
    }
}

/// Lines behind the sequence that moves the cursor home, and what is behind
/// them.
#[verifier::spinoff_prover]
proof fn lemma_lines_drawn(
    screen: Screen,
    lines: Seq<Seq<char>>,
    text: Seq<char>,
    rest: Seq<char>,
)
    requires
        text == home_sequence() + joined(lines),
        forall|i: int| 0 <= i < lines.len() ==> is_line(#[trigger] lines[i]),
    ensures
        forall|r: int, c: int| #[trigger]
            screen.written(text).shows(r, c) == if 0 <= r < lines.len() && 0 <= c < lines[r].len()
                - 1 {
                lines[r][c]
            } else {
                screen.shows(r, c)
            },
        screen.written(text + rest) == screen.written(text).written(rest),
{
    lemma_lines_written(screen.home(), lines);
    assert(home_sequence().is_prefix_of(text));
    assert(text.skip(3) =~= joined(lines));
    assert(screen.written(text) == screen.home().written(joined(lines)));
    assert(home_sequence().is_prefix_of(text + rest));
    assert((text + rest).skip(3) =~= joined(lines) + rest);
    lemma_plain_written(screen.home(), joined(lines), rest);
    assert forall|r: int, c: int| #[trigger] screen.written(text).shows(r, c) == if 0 <= r
        < lines.len() && 0 <= c < lines[r].len() - 1 {
        lines[r][c]
    } else {
        screen.shows(r, c)
    } by {
        assert(screen.home().shows(r, c) == screen.shows(r, c));
    }
}

/// A frame is drawn over what the screen shows, from the top left on: where it
/// puts a character that one is seen, and elsewhere what was there before. It
/// is complete in itself: text behind it finds the screen as the frame left it.
#[verifier::spinoff_prover]
pub proof fn law_a_frame_is_drawn_over_the_screen(
    screen: Screen,
    contacts: Seq<Contact>,
    ranges: AxisRanges,
    rest: Seq<char>,
)
    ensures
        forall|r: int, c: int| #[trigger]
            screen.written(frame(contacts, ranges)).shows(r, c) == (match frame_char(
                contacts,
                ranges,
                r,
                c,
            ) {
                Some(character) => character,
                None => screen.shows(r, c),
            }),
        screen.written(frame(contacts, ranges) + rest) == screen.written(
            frame(contacts, ranges),
        ).written(rest),
{
    law_a_frame_is_drawn_in_place(contacts, ranges);
    lemma_lines_drawn(screen, frame_lines(contacts, ranges), frame(contacts, ranges), rest);
}

/// Drawing in place leaves nothing of the frame before: a screen that shows a
/// frame and nothing else shows the next frame and nothing else, as long as at
/// most two fingers are gone.
pub proof fn law_a_frame_replaces_the_one_before(
    screen: Screen,
    before: Seq<Contact>,
    ranges_before: AxisRanges,
    contacts: Seq<Contact>,
    ranges: AxisRanges,
)
    requires
        screen.shows_frame(before, ranges_before),
        before.len() <= contacts.len() + 2,
    ensures
        screen.written(frame(contacts, ranges)).shows_frame(contacts, ranges),
{
    law_a_frame_is_drawn_over_the_screen(screen, contacts, ranges, Seq::empty());
    law_a_frame_covers_the_one_before(before, ranges_before, contacts, ranges);
    let after = screen.written(frame(contacts, ranges));
    assert forall|r: int, c: int| #[trigger] after.shows(r, c) == (match frame_char(
        contacts,
        ranges,
        r,
        c,
    ) {
        Some(character) => character,
        None => ' ',
    }) by {
        assert(screen.shows(r, c) == (match frame_char(before, ranges_before, r, c) {
            Some(character) => character,
            None => ' ',
        }));
    }
}

/// What a frame shows.
pub struct Picture {
    pub contacts: Seq<Contact>,
    pub ranges: AxisRanges,
}

/// The frames of several pictures, one after the other.
pub open spec fn frames(pictures: Seq<Picture>) -> Seq<char>
    decreases pictures.len(),
{
    if pictures.len() == 0 {
        Seq::empty()
    } else {
        frames(pictures.drop_last()) + frame(pictures.last().contacts, pictures.last().ranges)
    }
}

/// No picture shows over two fingers fewer than the one before it.
pub open spec fn shrinks_slowly(pictures: Seq<Picture>) -> bool {
    forall|i: int, j: int|
        0 <= i && j == i + 1 && j < pictures.len() ==> (#[trigger] pictures[i]).contacts.len() <= (
        #[trigger] pictures[j]).contacts.len() + 2
}

/// On a terminal that was cleared once, whatever was on it, the screen shows the
/// last frame and nothing else, however many were drawn in place before it, as
/// long as no frame shows over two fingers fewer than the one before it.
pub proof fn law_the_screen_shows_the_last_frame(screen: Screen, pictures: Seq<Picture>)
    requires
        pictures.len() > 0,
        shrinks_slowly(pictures),
    ensures
        screen.written(clear_sequence() + frames(pictures)).shows_frame(
            pictures.last().contacts,
            pictures.last().ranges,
        ),
{
    let text = clear_sequence() + frames(pictures);
    assert(clear_sequence().is_prefix_of(text));
    assert(!home_sequence().is_prefix_of(text)) by {
        assert(text[2] == '2' && home_sequence()[2] == 'H');
    }
    assert(text.skip(4) =~= frames(pictures));
    lemma_frames_drawn(screen.cleared(), pictures);
}

/// Frames that are drawn on an empty screen.
proof fn lemma_frames_drawn(screen: Screen, pictures: Seq<Picture>)
    requires
        screen.cells == Map::<(int, int), char>::empty(),
        pictures.len() > 0,
        shrinks_slowly(pictures),
    ensures
        screen.written(frames(pictures)).shows_frame(
            pictures.last().contacts,
            pictures.last().ranges,
        ),
    decreases pictures.len(),
{
    let before = pictures.drop_last();
    let last = pictures.last();
    lemma_frames_written(screen, before, frame(last.contacts, last.ranges));
    if before.len() == 0 {
        law_a_frame_is_drawn_over_the_screen(screen, last.contacts, last.ranges, Seq::empty());
    } else {
        assert(shrinks_slowly(before)) by {
            assert forall|i: int, j: int| 0 <= i && j == i + 1 && j < before.len() implies (
            #[trigger] before[i]).contacts.len() <= (#[trigger] before[j]).contacts.len() + 2 by {
                assert(pictures[i].contacts.len() <= pictures[j].contacts.len() + 2);
            }
        }
        lemma_frames_drawn(screen, before);
        assert(pictures[pictures.len() - 2].contacts.len() <= pictures[pictures.len()
            - 1].contacts.len() + 2);
        law_a_frame_replaces_the_one_before(
            screen.written(frames(before)),
            before.last().contacts,
            before.last().ranges,
            last.contacts,
            last.ranges,
        );
    }
}

/// Frames are complete in themselves.
proof fn lemma_frames_written(screen: Screen, pictures: Seq<Picture>, rest: Seq<char>)
    ensures
        screen.written(frames(pictures) + rest) == screen.written(frames(pictures)).written(rest),
    decreases pictures.len(),
{
    if pictures.len() == 0 {
        assert(frames(pictures) + rest =~= rest);
    } else {
        let before = pictures.drop_last();
        let text = frame(pictures.last().contacts, pictures.last().ranges);
        lemma_frames_written(screen, before, text + rest);
        lemma_frames_written(screen, before, text);
        assert(frames(before) + text + rest =~= frames(before) + (text + rest));
        law_a_frame_is_drawn_over_the_screen(
            screen.written(frames(before)),
            pictures.last().contacts,
            pictures.last().ranges,
            rest,
        );
    }
}

/// The picture of a report.
pub open spec fn report_picture(caps: Seq<ValueCap>, answers: ReportAnswers) -> Picture {
    Picture {
        contacts: active(decoded(caps, answers.values, answers.usages)),
        ranges: ranges_of(caps),
    }
}

/// What the reports of a message write are the frames of their pictures, one
/// after the other.
pub proof fn law_reports_are_written_as_frames(caps: Seq<ValueCap>, answers: Seq<ReportAnswers>)
    ensures
        report_frames(caps, answers) == frames(
            answers.map_values(|report: ReportAnswers| report_picture(caps, report)),
        ),
    decreases answers.len(),
{
    let pictures = answers.map_values(|report: ReportAnswers| report_picture(caps, report));
    if answers.len() > 0 {
        law_reports_are_written_as_frames(caps, answers.drop_last());
        assert(pictures.drop_last() =~= answers.drop_last().map_values(
            |report: ReportAnswers| report_picture(caps, report),
        ));
        assert(report_frame(caps, answers.last()) == frame(
            pictures.last().contacts,
            pictures.last().ranges,
        ));
    }
}

/// On a terminal that was cleared once, the screen shows the last report that
/// was read and nothing else, as long as no report has over two fingers fewer
/// than the one before it.
pub proof fn law_the_screen_shows_the_last_report(
    screen: Screen,
    caps: Seq<ValueCap>,
    answers: Seq<ReportAnswers>,
)
    requires
        answers.len() > 0,
        shrinks_slowly(
            answers.map_values(|report: ReportAnswers| report_picture(caps, report)),
        ),
    ensures
        screen.written(clear_sequence() + report_frames(caps, answers)).shows_frame(
            active(decoded(caps, answers.last().values, answers.last().usages)),
            ranges_of(caps),
        ),
{
    let pictures = answers.map_values(|report: ReportAnswers| report_picture(caps, report));
    law_reports_are_written_as_frames(caps, answers);
    law_the_screen_shows_the_last_frame(screen, pictures);
    assert(pictures.last() == report_picture(caps, answers.last()));
}

} // verus!
