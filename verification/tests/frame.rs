use term3d::draw::Screen;
use term3d::frame::{push_cell, push_colour, push_decimal};

fn decimal(n: u8) -> String {
    let mut out = Vec::new();
    push_decimal(&mut out, n);
    String::from_utf8(out).unwrap()
}

#[test]
fn channel_values_are_written_in_decimal() {
    assert_eq!(decimal(0), "0");
    assert_eq!(decimal(7), "7");
    assert_eq!(decimal(9), "9");
    assert_eq!(decimal(10), "10");
    assert_eq!(decimal(42), "42");
    assert_eq!(decimal(99), "99");
    assert_eq!(decimal(100), "100");
    assert_eq!(decimal(101), "101");
    assert_eq!(decimal(255), "255");
    for n in 0..=255u8 {
        assert_eq!(decimal(n), n.to_string());
    }
}

#[test]
fn push_appends_to_what_is_there() {
    let mut out = b"ab".to_vec();
    push_decimal(&mut out, 120);
    assert_eq!(out, b"ab120".to_vec());
    push_colour(&mut out, (1, 20, 255));
    assert_eq!(out, b"ab1201;20;255".to_vec());
}

#[test]
fn cell_sets_foreground_and_background_of_a_half_block() {
    let mut out = Vec::new();
    push_cell(&mut out, (255, 7, 42), (0, 100, 9));
    assert_eq!(
        String::from_utf8(out).unwrap(),
        "\x1b[38;2;255;7;42;48;2;0;100;9m\u{2580}"
    );
}

#[test]
fn frame_of_a_black_screen() {
    let screen = Screen::new(2, 1);
    assert_eq!(
        String::from_utf8(screen.write()).unwrap(),
        "\x1b[38;2;0;0;0;48;2;0;0;0m\u{2580}\x1b[38;2;0;0;0;48;2;0;0;0m\u{2580}"
    );
}

#[test]
fn even_rows_are_foreground_and_odd_rows_background() {
    let mut screen = Screen::new(2, 2);
    // (0, 0) and (1, 1) in the first terminal row, (0, 3) in the second
    screen.polygon(vec![(0, 0), (0, 1)], (255, 7, 42));
    screen.polygon(vec![(1, 1), (1, 2)], (1, 2, 3));
    screen.polygon(vec![(0, 3), (0, 4)], (90, 80, 70));
    assert_eq!(screen.pixel(0, 0), Some((255, 7, 42)));
    assert_eq!(screen.pixel(1, 1), Some((1, 2, 3)));
    assert_eq!(screen.pixel(0, 3), Some((90, 80, 70)));
    let expected = [
        "\x1b[38;2;255;7;42;48;2;0;0;0m\u{2580}",
        "\x1b[38;2;0;0;0;48;2;1;2;3m\u{2580}",
        "\x1b[38;2;0;0;0;48;2;90;80;70m\u{2580}",
        "\x1b[38;2;0;0;0;48;2;0;0;0m\u{2580}",
    ]
    .concat();
    assert_eq!(String::from_utf8(screen.write()).unwrap(), expected);
}

#[test]
fn frame_has_one_cell_per_column_and_terminal_row() {
    let screen = Screen::new(5, 3);
    let frame = String::from_utf8(screen.write()).unwrap();
    assert_eq!(frame.matches('\u{2580}').count(), 15);
    assert_eq!(frame.matches('\x1b').count(), 15);
    assert!(!frame.contains('\n'));
}

#[test]
fn every_number_of_a_frame_is_a_channel_value() {
    let mut screen = Screen::new(6, 3);
    screen.polygon(vec![(0, 0), (5, 0), (5, 5), (0, 5)], (255, 0, 128));
    let frame = String::from_utf8(screen.write()).unwrap();
    for cell in frame.split('\u{2580}').filter(|c| !c.is_empty()) {
        let body = cell.strip_prefix("\x1b[").unwrap().strip_suffix('m').unwrap();
        let numbers: Vec<u32> = body.split(';').map(|n| n.parse().unwrap()).collect();
        assert_eq!(numbers.len(), 10);
        assert_eq!((numbers[0], numbers[1], numbers[5], numbers[6]), (38, 2, 48, 2));
        for n in numbers {
            assert!(n <= 255);
        }
    }
}
