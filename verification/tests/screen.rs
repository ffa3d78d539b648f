use std::collections::BTreeMap;

use touchpad_raw::contact::Contact;
use touchpad_raw::debug_render::render_grid;

/// A terminal that knows the sequences for "cursor home" and "clear".
struct Screen {
    cells: BTreeMap<(usize, usize), char>,
    row: usize,
    column: usize,
}

impl Screen {
    /// A terminal that is full of something else.
    fn littered() -> Screen {
        let mut cells = BTreeMap::new();
        for row in 0..60 {
            for column in 0..120 {
                cells.insert((row, column), '#');
            }
        }
        Screen { cells, row: 7, column: 9 }
    }

    fn write(&mut self, text: &str) {
        let mut rest = text;
        while let Some(character) = rest.chars().next() {
            if let Some(behind) = rest.strip_prefix("\x1B[H") {
                self.row = 0;
                self.column = 0;
                rest = behind;
            } else if let Some(behind) = rest.strip_prefix("\x1B[2J") {
                self.cells.clear();
                rest = behind;
            } else {
                if character == '\n' {
                    self.row += 1;
                    self.column = 0;
                } else {
                    self.cells.insert((self.row, self.column), character);
                    self.column += 1;
                }
                rest = &rest[character.len_utf8()..];
            }
        }
    }

    /// What is seen, without the spaces.
    fn seen(&self) -> Vec<((usize, usize), char)> {
        self.cells.iter().filter(|(_, c)| **c != ' ').map(|(at, c)| (*at, *c)).collect()
    }
}

/// A frame with this many fingers, with coordinates and numbers of this size.
fn frame(fingers: u32, size: u32, max: i32) -> String {
    let mut contacts = BTreeMap::new();
    for finger in 0..fingers {
        let contact = Contact { x: size - finger, y: size / 2, tip: 1, id: size / 3 };
        contacts.insert(finger as u16 + 1, contact);
    }
    render_grid(&contacts, 0, max, 0, max)
}

/// The frame alone on an empty screen.
fn alone(frame: &str) -> Vec<((usize, usize), char)> {
    let mut screen = Screen::littered();
    screen.write("\x1B[2J");
    screen.write(frame);
    screen.seen()
}

#[test]
fn the_screen_shows_the_last_frame_and_nothing_else() {
    let mut screen = Screen::littered();
    screen.write("\x1B[2J");
    let frames = [
        frame(1, 700, 1000),
        frame(12, 4_294_967_295, 3500),
        frame(10, 100, 200),
        frame(9, 4_000_000_000, 100),
        frame(7, 9, 100),
        frame(5, 9, 100),
        frame(3, 4_294_967_295, 100),
        frame(1, 3, 10),
        frame(0, 0, 1),
        frame(2, 77, 100),
        frame(0, 0, 1),
    ];
    for frame in &frames {
        screen.write(frame);
        assert_eq!(screen.seen(), alone(frame));
    }
}

#[test]
fn frames_written_at_once_show_the_last_one() {
    let mut screen = Screen::littered();
    let text = format!("\x1B[2J{}{}{}", frame(3, 4_294_967_295, 9), frame(2, 70, 90), frame(0, 0, 1));
    screen.write(&text);
    assert_eq!(screen.seen(), alone(&frame(0, 0, 1)));
}

#[test]
fn a_frame_leaves_the_screen_beside_and_below_it_alone() {
    let mut screen = Screen::littered();
    screen.write(&frame(1, 5, 10));
    let text = frame(1, 5, 10);
    let lines: Vec<&str> = text.strip_prefix("\x1B[H").unwrap().lines().collect();
    assert_eq!(lines.len(), 26);
    for row in 0..60 {
        for column in 0..120 {
            let line = lines.get(row).copied().unwrap_or("");
            let shown = line.chars().nth(column).unwrap_or('#');
            assert_eq!(screen.cells[&(row, column)], shown);
        }
    }
}

#[test]
fn the_last_of_three_gone_fingers_stays_listed() {
    let mut screen = Screen::littered();
    screen.write("\x1B[2J");
    screen.write(&frame(3, 700, 1000));
    screen.write(&frame(0, 0, 1));
    let left: String = screen.seen().iter().filter(|(at, _)| at.0 == 25).map(|(_, c)| *c).collect();
    assert_eq!(left, "id=233x=698y=350");
    assert_eq!(screen.seen().iter().filter(|(at, _)| at.0 != 25).count(), alone(&frame(0, 0, 1)).len());
}
