use iguana::iggy::{parse_char, parse_range_char, unescape_string};

#[test]
fn escapes_in_strings_are_resolved() {
    assert_eq!(unescape_string("a\\nb"), "a\nb");
    assert_eq!(unescape_string("tab\\there"), "tab\there");
    assert_eq!(unescape_string("\\\"quoted\\\""), "\"quoted\"");
    assert_eq!(unescape_string("back\\\\slash"), "back\\slash");
    assert_eq!(unescape_string("feed\\f"), "feed\u{c}");
    assert_eq!(unescape_string("\\q"), "q");
}

#[test]
fn a_trailing_backslash_is_dropped() {
    assert_eq!(unescape_string("end\\"), "end");
    assert_eq!(unescape_string(""), "");
}

#[test]
fn character_literals_read_escapes() {
    assert_eq!(parse_char("a"), 'a');
    assert_eq!(parse_char("\\n"), '\n');
    assert_eq!(parse_char("\\r"), '\r');
    assert_eq!(parse_char("\\\\"), '\\');
    assert_eq!(parse_char("\\"), '\\');
    assert_eq!(parse_char("é"), 'é');
    assert_eq!(parse_range_char("\\t"), '\t');
    assert_eq!(parse_range_char("z"), 'z');
}
