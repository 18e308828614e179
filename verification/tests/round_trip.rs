use colost::{Color, ColoredString};

/// Takes every `ESC [ digits (; digits)* m` out of `s`.
fn strip_escapes(s: &str) -> String {
    let chars: Vec<char> = s.chars().collect();
    let mut out = String::new();
    let mut i = 0;
    while i < chars.len() {
        match token_end(&chars, i) {
            Some(end) => i = end,
            None => {
                out.push(chars[i]);
                i += 1;
            }
        }
    }
    out
}

fn token_end(chars: &[char], start: usize) -> Option<usize> {
    if start + 1 >= chars.len() || chars[start] != '\x1b' || chars[start + 1] != '[' {
        return None;
    }
    let mut at = start + 2;
    let mut seen_digit = false;
    while at < chars.len() {
        let c = chars[at];
        if c.is_ascii_digit() {
            seen_digit = true;
        } else if seen_digit && c == ';' {
            seen_digit = false;
        } else if seen_digit && c == 'm' {
            return Some(at + 1);
        } else {
            return None;
        }
        at += 1;
    }
    None
}

#[test]
fn stripping_restores_the_text() {
    let mut cs = ColoredString::new();
    cs.set_fg(&Color::Red);
    cs.set_bold(true);
    cs.push_str("Hello, ");
    cs.set_bg(&Color::BrightGreen);
    cs.push_str("w\u{f6}rld");
    cs.reset();
    cs.push('!');
    cs.set_italic(false);
    assert_eq!(strip_escapes(&cs.colored()), cs.raw());
    assert_eq!(cs.raw(), "Hello, w\u{f6}rld!");
}

#[test]
fn stripping_plain_text_changes_nothing() {
    let mut cs = ColoredString::new();
    cs.push_str("no escapes; just text [0m");
    assert_eq!(strip_escapes(&cs.colored()), cs.raw());
}

#[test]
fn stripping_does_not_restore_text_in_front_of_the_first_marker() {
    let mut cs = ColoredString::new();
    cs.push_str("lead");
    cs.set_fg(&Color::Blue);
    cs.push_str("rest");
    assert_eq!(strip_escapes(&cs.colored()), "rest");
    assert_eq!(cs.raw(), "leadrest");
}

#[test]
fn stripping_also_removes_escapes_that_the_text_holds() {
    let mut cs = ColoredString::new();
    cs.set_fg(&Color::Blue);
    cs.push_str("a\x1b[1mb");
    assert_eq!(cs.colored(), "\x1b[34ma\x1b[1mb\x1b[0m");
    assert_eq!(strip_escapes(&cs.colored()), "ab");
}

#[test]
fn partial_escapes_in_the_text_survive_stripping() {
    let mut cs = ColoredString::new();
    cs.set_fg(&Color::Blue);
    cs.push_str("\x1b[3");
    cs.set_bold(true);
    cs.push_str("1m \x1b[;m \x1b[m \x1b[1;m");
    assert_eq!(strip_escapes(&cs.colored()), cs.raw());
}
