use std::collections::BTreeMap;

use touchpad_raw::contact::Contact;
use touchpad_raw::debug_render::{active_contacts, can_render, render_grid, GRID_H, GRID_W};

/// The frame, composed with the formatter and the machine's single-precision
/// numbers.
fn expected_frame(contacts: &BTreeMap<u16, Contact>, x_min: i32, x_max: i32, y_min: i32, y_max: i32) -> String {
    let active: Vec<&Contact> = contacts.values().filter(|c| c.tip != 0).collect();
    let mut grid = vec![vec!['.'; 80]; 20];
    let x_span = (x_max - x_min).max(1) as f32;
    let y_span = (y_max - y_min).max(1) as f32;
    for c in &active {
        let nx = ((c.x as i32 - x_min) as f32 / x_span).clamp(0.0, 1.0);
        let ny = ((c.y as i32 - y_min) as f32 / y_span).clamp(0.0, 1.0);
        let col = (nx * 79f32).round() as usize;
        let row = (ny * 19f32).round() as usize;
        grid[row][col] = std::char::from_digit(c.id & 0xF, 16).unwrap_or('O').to_ascii_uppercase();
    }
    let mut out = String::from("\x1B[H");
    out.push_str(&format!("+{}+\n", "-".repeat(80)));
    for row in &grid {
        out.push('|');
        out.extend(row.iter());
        out.push_str("|\n");
    }
    out.push_str(&format!("+{}+\n", "-".repeat(80)));
    out.push_str(&format!("contacts: {}          \n", active.len()));
    for c in &active {
        out.push_str(&format!("  id={} x={:5} y={:5}                    \n", c.id, c.x, c.y));
    }
    out.push_str(&format!("{}\n", " ".repeat(60)));
    out.push_str(&format!("{}\n", " ".repeat(60)));
    out
}

fn contact(x: u32, y: u32, tip: u32, id: u32) -> Contact {
    Contact { x, y, tip, id }
}

/// The character in one cell of a frame.
fn cell_of(frame: &str, row: usize, col: usize) -> char {
    let line = frame.lines().nth(row + 1).unwrap();
    line.chars().nth(col + 1).unwrap()
}

#[test]
fn an_empty_pad_is_a_grid_of_dots() {
    let frame = render_grid(&BTreeMap::new(), 0, 3500, 0, 2000);
    assert_eq!(frame, expected_frame(&BTreeMap::new(), 0, 3500, 0, 2000));
    assert!(frame.starts_with("\x1B[H+----"));
    assert_eq!(frame.lines().count(), GRID_H + 5);
    assert_eq!(frame.matches('.').count(), GRID_W * GRID_H);
    assert_eq!(frame.matches('\x1B').count(), 1);
}

#[test]
fn a_frame_is_composed_exactly() {
    let mut contacts = BTreeMap::new();
    contacts.insert(1, contact(0, 0, 1, 0));
    contacts.insert(2, contact(3500, 2000, 1, 15));
    contacts.insert(3, contact(1750, 1000, 1, 26));
    contacts.insert(4, contact(9, 9, 0, 4));
    contacts.insert(5, contact(1_234_567, 12, 7, 4_294_967_295));
    let frame = render_grid(&contacts, 0, 3500, 0, 2000);
    assert_eq!(frame, expected_frame(&contacts, 0, 3500, 0, 2000));
    assert_eq!(cell_of(&frame, 19, 79), 'F');
    assert_eq!(cell_of(&frame, 10, 40), 'A');
    assert_eq!(cell_of(&frame, 0, 79), 'F');
    assert_eq!(cell_of(&frame, 0, 0), '0');
    assert!(frame.contains("contacts: 4          \n"));
    assert!(frame.contains("  id=26 x= 1750 y= 1000                    \n"));
    assert!(frame.contains("  id=4294967295 x=1234567 y=   12                    \n"));
}

#[test]
fn frames_agree_with_the_formatter_on_many_pads() {
    let mut seed = 7u64;
    let mut next = |bound: u64| {
        seed = seed.wrapping_mul(6364136223846793005).wrapping_add(1442695040888963407);
        (seed >> 30) % bound
    };
    for _ in 0..300 {
        let mut contacts = BTreeMap::new();
        for _ in 0..next(8) {
            contacts.insert(
                next(12) as u16,
                contact(next(5000) as u32, next(3000) as u32, next(2) as u32, next(40) as u32),
            );
        }
        let (x_min, x_max) = (next(100) as i32 - 50, next(4000) as i32);
        let (y_min, y_max) = (next(100) as i32 - 50, next(2500) as i32);
        assert!(can_render(&contacts, x_min, x_max, y_min, y_max));
        assert_eq!(
            render_grid(&contacts, x_min, x_max, y_min, y_max),
            expected_frame(&contacts, x_min, x_max, y_min, y_max)
        );
    }
}

#[test]
fn the_higher_slot_covers_the_lower_one() {
    let mut contacts = BTreeMap::new();
    contacts.insert(9, contact(50, 50, 1, 2));
    contacts.insert(3, contact(50, 50, 1, 1));
    let frame = render_grid(&contacts, 0, 100, 0, 100);
    assert_eq!(cell_of(&frame, 10, 40), '2');
    let first = frame.find("id=1 ").unwrap();
    let second = frame.find("id=2 ").unwrap();
    assert!(first < second);
}

#[test]
fn lifted_fingers_leave_no_trace() {
    let mut contacts = BTreeMap::new();
    contacts.insert(1, contact(50, 50, 1, 2));
    let alone = render_grid(&contacts, 0, 100, 0, 100);
    contacts.insert(2, contact(10, 10, 0, 3));
    assert_eq!(render_grid(&contacts, 0, 100, 0, 100), alone);
    assert_eq!(active_contacts(&contacts), vec![contact(50, 50, 1, 2)]);
}

#[test]
fn a_range_that_was_never_filled_in_does_no_harm() {
    let mut contacts = BTreeMap::new();
    contacts.insert(1, contact(0, 700, 1, 5));
    let frame = render_grid(&contacts, 0, 0, 0, 0);
    assert_eq!(cell_of(&frame, 19, 0), '5');
    assert_eq!(frame, expected_frame(&contacts, 0, 0, 0, 0));
}

#[test]
fn ranges_too_wide_for_the_arithmetic_are_told() {
    let mut contacts = BTreeMap::new();
    assert!(!can_render(&contacts, i32::MIN, 0, 0, 1));
    assert!(!can_render(&contacts, 0, 1, -1, i32::MAX));
    assert!(can_render(&contacts, i32::MIN, -1, 0, i32::MAX));
    assert!(can_render(&contacts, 0, i32::MIN, 0, 1));
    contacts.insert(1, contact(0, 0, 1, 0));
    assert!(!can_render(&contacts, i32::MIN, -1, 0, 1));
    contacts.insert(1, contact(0, 0, 0, 0));
    assert!(can_render(&contacts, i32::MIN, -1, 0, 1));
    contacts.insert(1, contact(0x8000_0000, 0, 1, 0));
    assert!(!can_render(&contacts, 1, 5, 0, 1));
    assert!(can_render(&contacts, 0, 5, 0, 1));
    contacts.insert(1, contact(0, 0x7fff_ffff, 1, 0));
    assert!(!can_render(&contacts, 0, 5, -1, 1));
}

#[test]
fn any_touching_tip_is_drawn_alike() {
    let mut contacts = BTreeMap::new();
    contacts.insert(1, contact(50, 50, 1, 2));
    contacts.insert(4, contact(10, 90, 1, 3));
    let frame = render_grid(&contacts, 0, 100, 0, 100);
    contacts.insert(1, contact(50, 50, 7, 2));
    contacts.insert(4, contact(10, 90, u32::MAX, 3));
    contacts.insert(2, contact(10, 90, 0, 9));
    assert_eq!(render_grid(&contacts, 0, 100, 0, 100), frame);
}

#[test]
fn touching_slots_come_once_and_in_order() {
    let mut contacts = BTreeMap::new();
    for link in [700u16, 0, 65535, 3, 12] {
        contacts.insert(link, contact(50, 50, u32::from(link != 12), link as u32));
    }
    let ids: Vec<u32> = active_contacts(&contacts).iter().map(|c| c.id).collect();
    assert_eq!(ids, vec![0, 3, 700, 65535]);
    assert_eq!(cell_of(&render_grid(&contacts, 0, 100, 0, 100), 10, 40), 'F');
    contacts.insert(65535, contact(0, 50, 1, 65535));
    assert_eq!(cell_of(&render_grid(&contacts, 0, 100, 0, 100), 10, 40), 'C');
}

#[test]
fn labels_tell_fingers_apart_by_their_last_digit() {
    let mut labels = Vec::new();
    for id in 0..16u32 {
        let mut contacts = BTreeMap::new();
        contacts.insert(1, contact(0, 0, 1, id));
        let label = cell_of(&render_grid(&contacts, 0, 100, 0, 100), 0, 0);
        contacts.insert(1, contact(0, 0, 1, id + 0x30));
        assert_eq!(cell_of(&render_grid(&contacts, 0, 100, 0, 100), 0, 0), label);
        labels.push(label);
    }
    assert_eq!(labels.iter().collect::<String>(), "0123456789ABCDEF");
}

#[test]
fn fingers_far_outside_the_ranges_stay_inside_the_grid() {
    let mut contacts = BTreeMap::new();
    contacts.insert(1, contact(0x7fff_ffff, 0x7fff_ffff, 1, 1));
    contacts.insert(2, contact(0x8000_0000, 0x8000_0000, 1, 2));
    let frame = render_grid(&contacts, 0, 100, 0, 100);
    assert_eq!(cell_of(&frame, 19, 79), '1');
    assert_eq!(cell_of(&frame, 0, 0), '2');
}
