use colost::{Color, ColoredString};

fn all_colors() -> Vec<(Color, u8, &'static str)> {
    vec![
        (Color::Black, 0, "Black"),
        (Color::Red, 1, "Red"),
        (Color::Green, 2, "Green"),
        (Color::Yellow, 3, "Yellow"),
        (Color::Blue, 4, "Blue"),
        (Color::Magenta, 5, "Magenta"),
        (Color::Cyan, 6, "Cyan"),
        (Color::White, 7, "White"),
        (Color::BrightBlack, 60, "Bright Black"),
        (Color::BrightRed, 61, "Bright Red"),
        (Color::BrightGreen, 62, "Bright Green"),
        (Color::BrightYellow, 63, "Bright Yellow"),
        (Color::BrightBlue, 64, "Bright Blue"),
        (Color::BrightMagenta, 65, "Bright Magenta"),
        (Color::BrightCyan, 66, "Bright Cyan"),
        (Color::BrightWhite, 67, "Bright White"),
    ]
}

#[test]
fn int_values() {
    for (color, value, _) in all_colors() {
        assert_eq!(color.int_value(), value);
    }
}

#[test]
fn int_values_are_standard_or_bright() {
    for (color, _, _) in all_colors() {
        let v = color.int_value();
        assert!(v <= 7 || (60..=67).contains(&v));
    }
}

#[test]
fn names() {
    for (color, _, name) in all_colors() {
        assert_eq!(color.to_string(), name);
    }
}

#[test]
fn print_fg() {
    for (color, value, name) in all_colors() {
        let mut cs = ColoredString::default();

        cs.set_fg(&color);

        cs.push_str("Foreground ");
        cs.push_str(&color.to_string());

        let expected = format!("\x1b[{}mForeground {}\x1b[0m", 30 + value, name);
        assert_eq!(cs.colored(), expected);
        println!("{}", cs.colored());
    }
}

#[test]
fn print_bg() {
    for (color, value, name) in all_colors() {
        let mut cs = ColoredString::default();

        cs.set_bg(&color);

        cs.push_str("Background ");
        cs.push_str(&color.to_string());

        let expected = format!("\x1b[{}mBackground {}\x1b[0m", 40 + value, name);
        assert_eq!(cs.colored(), expected);
        println!("{}", cs.colored());
    }
}

#[test]
fn every_code_is_written_in_decimal() {
    let mut cs = ColoredString::new();
    let mut expected = String::from("\x1b[");
    let mut first = true;
    for (color, value, _) in all_colors() {
        cs.set_fg(&color);
        cs.set_bg(&color);
        if !first {
            expected.push(';');
        }
        first = false;
        expected.push_str(&(30 + value as u32).to_string());
        expected.push(';');
        expected.push_str(&(40 + value as u32).to_string());
    }
    expected.push_str("m\x1b[0m");
    assert_eq!(cs.colored(), expected);
}
