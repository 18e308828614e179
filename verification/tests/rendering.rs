use colost::{Color, ColoredString};

#[test]
fn plain_text_renders_without_escapes() {
    let mut cs = ColoredString::new();
    cs.push_str("Hello");
    assert_eq!(cs.colored(), "Hello");
}

#[test]
fn empty_buffer_renders_empty() {
    let cs = ColoredString::new();
    assert_eq!(cs.colored(), "");
    assert_eq!(cs.raw(), "");
}

#[test]
fn render_equals_raw_without_markers() {
    let mut cs = ColoredString::new();
    cs.push_str("plain \u{1f600} text; 12m");
    cs.push('!');
    assert_eq!(cs.colored(), cs.raw());
    assert_eq!(cs.colored(), "plain \u{1f600} text; 12m!");
}

#[test]
fn foreground_then_text() {
    let mut cs = ColoredString::new();
    cs.set_fg(&Color::Red);
    cs.push_str("Hi");
    assert_eq!(cs.colored(), "\x1b[31mHi\x1b[0m");
}

#[test]
fn two_codes_at_one_offset_merge() {
    let mut cs = ColoredString::new();
    cs.set_fg(&Color::Red);
    cs.set_bold(true);
    assert_eq!(cs.colored(), "\x1b[31;2m\x1b[0m");
    cs.push_str("text");
    assert_eq!(cs.colored(), "\x1b[31;2mtext\x1b[0m");
}

#[test]
fn three_codes_merge_in_call_order() {
    let mut cs = ColoredString::new();
    cs.set_underline(true);
    cs.set_bg(&Color::Blue);
    cs.set_fg(&Color::BrightYellow);
    cs.push_str("x");
    assert_eq!(cs.colored(), "\x1b[4;44;93mx\x1b[0m");
}

#[test]
fn text_between_codes_splits_sequences() {
    let mut cs = ColoredString::new();
    cs.set_fg(&Color::Red);
    cs.push_str("one");
    cs.set_fg(&Color::Green);
    cs.push_str("two");
    assert_eq!(cs.colored(), "\x1b[31mone\x1b[32mtwo\x1b[0m");
}

#[test]
fn text_in_front_of_first_marker_is_left_out() {
    let mut cs = ColoredString::new();
    cs.push_str("A");
    cs.set_fg(&Color::Green);
    cs.push_str("B");
    assert_eq!(cs.raw(), "AB");
    assert_eq!(cs.colored(), "\x1b[32mB\x1b[0m");
}

#[test]
fn disabling_bold_records_22() {
    let mut cs = ColoredString::new();
    cs.push_str("x");
    cs.set_bold(false);
    assert_eq!(cs.colored(), "\x1b[22m\x1b[0m");
}

#[test]
fn disabling_bold_after_styled_text() {
    let mut cs = ColoredString::new();
    cs.set_bold(true);
    cs.push_str("strong");
    cs.set_bold(false);
    cs.push_str(" weak");
    assert_eq!(cs.colored(), "\x1b[2mstrong\x1b[22m weak\x1b[0m");
}

#[test]
fn markers_without_text() {
    let mut cs = ColoredString::new();
    cs.set_italic(true);
    assert_eq!(cs.raw(), "");
    assert_eq!(cs.colored(), "\x1b[3m\x1b[0m");
}

#[test]
fn marker_at_end_of_text() {
    let mut cs = ColoredString::new();
    cs.set_fg(&Color::Cyan);
    cs.push_str("tail");
    cs.set_underline(true);
    assert_eq!(cs.colored(), "\x1b[36mtail\x1b[4m\x1b[0m");
}

#[test]
fn trailing_reset_is_always_added() {
    let mut cs = ColoredString::new();
    cs.set_fg(&Color::Red);
    cs.push_str("r");
    cs.reset();
    assert_eq!(cs.colored(), "\x1b[31mr\x1b[0m\x1b[0m");
}

#[test]
fn reset_in_the_middle() {
    let mut cs = ColoredString::new();
    cs.set_bg(&Color::Magenta);
    cs.push_str("on");
    cs.reset();
    cs.push_str("off");
    assert_eq!(cs.colored(), "\x1b[45mon\x1b[0moff\x1b[0m");
}

#[test]
fn rendering_ends_with_reset() {
    let mut cs = ColoredString::new();
    cs.push_str("lead");
    cs.set_slow_blink(true);
    cs.push_str("blink");
    cs.set_fast_blink(false);
    assert!(cs.colored().ends_with("\x1b[0m"));
    cs.push_str("more");
    assert!(cs.colored().ends_with("\x1b[0m"));
}

#[test]
fn rendering_twice_gives_the_same_string() {
    let mut cs = ColoredString::new();
    cs.set_fg(&Color::BrightBlue);
    cs.push_str("again");
    cs.set_faint(true);
    let first = cs.colored();
    let second = cs.colored();
    assert_eq!(first, second);
    assert_eq!(first, "\x1b[94magain\x1b[1m\x1b[0m");
}

#[test]
fn rendering_leaves_the_buffer_alone() {
    let mut cs = ColoredString::new();
    cs.set_fg(&Color::White);
    cs.push_str("w");
    let before = cs.colored();
    assert_eq!(cs.raw(), "w");
    cs.push_str("x");
    assert_eq!(before, "\x1b[37mw\x1b[0m");
    assert_eq!(cs.colored(), "\x1b[37mwx\x1b[0m");
}

#[test]
fn raw_is_an_independent_copy() {
    let mut cs = ColoredString::new();
    cs.push_str("abc");
    let mut copy = cs.raw();
    copy.push('!');
    assert_eq!(cs.raw(), "abc");
    cs.push('d');
    assert_eq!(copy, "abc!");
    assert_eq!(cs.raw(), "abcd");
}

#[test]
fn raw_ignores_markers() {
    let mut cs = ColoredString::new();
    cs.push_str("a");
    cs.set_fg(&Color::Red);
    cs.push('b');
    cs.reset();
    cs.push_str("c");
    assert_eq!(cs.raw(), "abc");
}

#[test]
fn multibyte_text_is_cut_at_byte_offsets() {
    let mut cs = ColoredString::new();
    cs.set_fg(&Color::Yellow);
    cs.push_str("h\u{e9}llo \u{4e16}\u{754c}");
    cs.set_bg(&Color::Black);
    cs.push('\u{1f600}');
    cs.set_bold(true);
    cs.push_str("\u{df}");
    assert_eq!(
        cs.colored(),
        "\x1b[33mh\u{e9}llo \u{4e16}\u{754c}\x1b[40m\u{1f600}\x1b[2m\u{df}\x1b[0m"
    );
    assert_eq!(cs.raw(), "h\u{e9}llo \u{4e16}\u{754c}\u{1f600}\u{df}");
}

#[test]
fn three_digit_codes() {
    let mut cs = ColoredString::new();
    cs.set_bg(&Color::BrightBlack);
    cs.set_bg(&Color::BrightWhite);
    cs.push_str("bright");
    assert_eq!(cs.colored(), "\x1b[100;107mbright\x1b[0m");
}

#[test]
fn format_codes_on_and_off() {
    let mut on = ColoredString::new();
    on.set_faint(true);
    on.set_bold(true);
    on.set_italic(true);
    on.set_underline(true);
    on.set_slow_blink(true);
    on.set_fast_blink(true);
    assert_eq!(on.colored(), "\x1b[1;2;3;4;5;6m\x1b[0m");

    let mut off = ColoredString::new();
    off.set_faint(false);
    off.set_bold(false);
    off.set_italic(false);
    off.set_underline(false);
    off.set_slow_blink(false);
    off.set_fast_blink(false);
    assert_eq!(off.colored(), "\x1b[21;22;23;24;25;26m\x1b[0m");
}

#[test]
fn reset_records_code_zero() {
    let mut cs = ColoredString::new();
    cs.reset();
    cs.push_str("z");
    assert_eq!(cs.colored(), "\x1b[0mz\x1b[0m");
}

#[test]
fn empty_append_does_not_split() {
    let mut cs = ColoredString::new();
    cs.set_fg(&Color::Red);
    cs.push_str("");
    cs.set_bold(true);
    cs.push_str("x");
    assert_eq!(cs.colored(), "\x1b[31;2mx\x1b[0m");
}

#[test]
fn with_capacity_starts_empty() {
    let mut cs = ColoredString::with_capacity(64);
    assert_eq!(cs.raw(), "");
    assert_eq!(cs.colored(), "");
    cs.set_fg(&Color::Blue);
    cs.push_str("cap");
    assert_eq!(cs.colored(), "\x1b[34mcap\x1b[0m");
    let zero = ColoredString::with_capacity(0);
    assert_eq!(zero.colored(), "");
}

#[test]
fn default_is_empty() {
    let mut cs = ColoredString::default();
    assert_eq!(cs.raw(), "");
    assert_eq!(cs.colored(), "");
    cs.push('c');
    assert_eq!(cs.colored(), "c");
}

#[test]
fn push_appends_one_character() {
    let mut cs = ColoredString::new();
    cs.set_fg(&Color::Green);
    cs.push('o');
    cs.push('\u{2713}');
    cs.push('k');
    assert_eq!(cs.raw(), "o\u{2713}k");
    assert_eq!(cs.colored(), "\x1b[32mo\u{2713}k\x1b[0m");
}

#[test]
fn many_segments() {
    let mut cs = ColoredString::new();
    let mut expected = String::new();
    for i in 0..200 {
        cs.set_fg(&Color::Red);
        cs.set_bg(&Color::BrightCyan);
        cs.push_str("seg");
        cs.push_str(&i.to_string());
        expected.push_str("\x1b[31;106mseg");
        expected.push_str(&i.to_string());
    }
    expected.push_str("\x1b[0m");
    assert_eq!(cs.colored(), expected);
}
