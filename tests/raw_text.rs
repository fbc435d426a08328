use reflow::render::Align;
use reflow::text::{format_raw_text, TextError};

#[test]
fn entities_are_replaced() {
    let out = format_raw_text(&b"fish &amp; chips &lt;3".to_vec(), Align::Justify, 72);
    assert_eq!(out, Ok(vec!["fish & chips <3".to_string(), String::new()]));
}

#[test]
fn plain_bytes_pass_through() {
    let out = format_raw_text(&b"A Title Here".to_vec(), Align::Center, 20);
    assert_eq!(out, Ok(vec!["    A Title Here".to_string(), String::new()]));
}

#[test]
fn unknown_entity_is_an_error() {
    let out = format_raw_text(&b"a &bogus; b".to_vec(), Align::Justify, 72);
    assert_eq!(out, Err(TextError::BadEscape));
}

#[test]
fn invalid_utf8_is_replaced() {
    let out = format_raw_text(&vec![b'f', 0xff, b' ', b'x'], Align::Justify, 72);
    assert_eq!(out, Ok(vec!["f\u{fffd} x".to_string(), String::new()]));
}

#[test]
fn numeric_references_decode() {
    let out = format_raw_text(&b"caf&#233; &#x41;".to_vec(), Align::Justify, 72);
    assert_eq!(out, Ok(vec!["café A".to_string(), String::new()]));
}
