use lib::base::{OpStatus, SafeString};
use lib::terminal::{Terminal, Colorable, draw_box, decimal_digits};

#[test]
fn op_status_messages() {
    assert_eq!(OpStatus::Success.to_string(), "Success");
    assert_eq!(OpStatus::IndexError.to_string(), "Index out of bounds");
    assert_eq!(OpStatus::InvalidState.to_string(), "Invalid state");
    assert_eq!(OpStatus::TypeMismatch.to_string(), "Type mismatch");
}

#[test]
fn safe_string_basics() {
    let mut s = SafeString::new();
    assert!(s.is_empty());
    assert_eq!(s.len(), 0);
    s.push_str("héllo");
    assert_eq!(s.len(), 5);
    assert!(!s.is_empty());
    assert_eq!(s.to_string(), "héllo");
    s.clear();
    assert!(s.is_empty());
    assert_eq!(s.to_string(), "");
}

#[test]
fn safe_string_get_symbol_in_and_out_of_range() {
    let s = SafeString::from_str("añb");
    assert_eq!(s.get_symbol(1), Ok('ñ'));
    assert_eq!(s.get_symbol(2), Ok('b'));
    assert_eq!(s.get_symbol(3), Err(OpStatus::IndexError));
    assert_eq!(s.get_symbol(u64::MAX), Err(OpStatus::IndexError));
    assert_eq!(s.index(0), 'a');
}

#[test]
fn safe_string_set_then_get() {
    let mut s = SafeString::from_str("abc");
    assert_eq!(s.set_symbol(1, 'Z'), Ok(()));
    assert_eq!(s.get_symbol(1), Ok('Z'));
    assert_eq!(s.get_symbol(0), Ok('a'));
    assert_eq!(s.set_symbol(3, 'x'), Err(OpStatus::IndexError));
    assert_eq!(s.to_string(), "aZc");
}

#[test]
fn safe_string_set_str_concat_and_chars() {
    let mut s = SafeString::from_str("abc");
    s.set_str("xy");
    assert_eq!(s.to_string(), "xy");
    let t = s.clone().concat(SafeString::from_chars(vec!['1', '2']));
    assert_eq!(t.to_string(), "xy12");
    assert_eq!(t.as_chars(), &['x', 'y', '1', '2']);
    s.push_str("z");
    assert_eq!(s.to_string(), "xyz");
}

#[test]
fn terminal_sequences() {
    assert_eq!(Terminal::clear(), "\x1B[2J\x1B[1;1H");
    assert_eq!(Terminal::clear_line(), "\x1B[2K");
    assert_eq!(Terminal::move_to(3, 7), "\x1B[7;3H");
    assert_eq!(Terminal::hide_cursor(), "\x1B[?25l");
    assert_eq!(Terminal::show_cursor(), "\x1B[?25h");
    assert_eq!(Terminal::set_fg_rgb(255, 0, 10), "\x1B[38;2;255;0;10m");
    assert_eq!(Terminal::set_bg_rgb(1, 2, 3), "\x1B[48;2;1;2;3m");
    assert_eq!(Terminal::reset(), "\x1B[0m");
    assert_eq!(Terminal::print_rgb("hi", 9, 8, 7), "\x1B[38;2;9;8;7mhi\x1B[0m");
}

#[test]
fn colorable_text() {
    assert_eq!("hi".color_rgb(1, 2, 3), "\x1B[38;2;1;2;3mhi\x1B[0m");
    assert_eq!(String::from("ok").color_rgb(0, 0, 0), "\x1B[38;2;0;0;0mok\x1B[0m");
    assert_eq!(SafeString::from_str("é").color_rgb(10, 20, 30), "\x1B[38;2;10;20;30mé\x1B[0m");
}

#[test]
fn box_drawing_text() {
    assert_eq!(
        draw_box(1, 1, 4, 3),
        "\x1B[1;1H┌──┐\x1B[2;1H│  │\x1B[3;1H└──┘"
    );
    assert_eq!(draw_box(5, 2, 2, 2), "\x1B[2;5H┌┐\x1B[3;5H└┘");
}

#[test]
fn decimal_digits_of_numbers() {
    assert_eq!(decimal_digits(0), vec!['0']);
    assert_eq!(decimal_digits(907), vec!['9', '0', '7']);
    assert_eq!(decimal_digits(u64::MAX).iter().collect::<String>(), u64::MAX.to_string());
}
