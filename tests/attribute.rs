use backlight::attribute::{brightness_text, read_file_to_usize};
use backlight::error::BacklightError;

#[test]
fn whitespace_only_is_empty() {
    assert_eq!(read_file_to_usize("   \n\t "), Err(BacklightError::Empty));
}

#[test]
fn no_text_is_empty() {
    assert_eq!(read_file_to_usize(""), Err(BacklightError::Empty));
}

#[test]
fn word_is_unparsable() {
    assert_eq!(read_file_to_usize("abc\n"), Err(BacklightError::Unparsable));
}

#[test]
fn first_token_only_is_read() {
    assert_eq!(read_file_to_usize("123 ignored"), Ok(123));
}

#[test]
fn leading_whitespace_and_newline() {
    assert_eq!(read_file_to_usize("\n  937\n"), Ok(937));
}

#[test]
fn unicode_whitespace_separates() {
    assert_eq!(read_file_to_usize("\u{a0}42\u{3000}7"), Ok(42));
}

#[test]
fn plus_sign_is_accepted() {
    assert_eq!(read_file_to_usize("+15"), Ok(15));
    assert_eq!(read_file_to_usize("+"), Err(BacklightError::Unparsable));
}

#[test]
fn minus_sign_is_unparsable() {
    assert_eq!(read_file_to_usize("-1"), Err(BacklightError::Unparsable));
}

#[test]
fn digits_then_letters_is_unparsable() {
    assert_eq!(read_file_to_usize("12ab 3"), Err(BacklightError::Unparsable));
}

#[test]
fn largest_value_fits() {
    let text = format!("{}\n", usize::MAX);
    assert_eq!(read_file_to_usize(&text), Ok(usize::MAX));
}

#[test]
fn value_past_largest_is_unparsable() {
    let text = format!("{}0", usize::MAX);
    assert_eq!(read_file_to_usize(&text), Err(BacklightError::Unparsable));
}

#[test]
fn brightness_text_is_decimal() {
    assert_eq!(brightness_text(0), b"0".to_vec());
    assert_eq!(brightness_text(7), b"7".to_vec());
    assert_eq!(brightness_text(1234), b"1234".to_vec());
    assert_eq!(brightness_text(usize::MAX), usize::MAX.to_string().into_bytes());
}

#[test]
fn written_brightness_reads_back() {
    for v in [0usize, 9, 10, 50, 100, 4095, 120000, usize::MAX] {
        let text = String::from_utf8(brightness_text(v)).unwrap();
        assert_eq!(read_file_to_usize(&text), Ok(v));
    }
}

#[test]
fn error_messages() {
    assert_eq!(BacklightError::Empty.message(), "Empty file");
    assert_eq!(BacklightError::Unparsable.message(), "Couldn't parse value");
    assert_eq!(BacklightError::NoBacklights.message(), "No backlights detected");
    assert_eq!(BacklightError::NotFound.message(), "No such backlight");
}
