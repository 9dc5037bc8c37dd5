use rprosody::validation::{
    check_valid_cdata_char, check_valid_name_char, check_valid_name_start_char,
    check_xml_cdata, check_xml_element_name, convert_xml_attribute_name, convert_xml_cdata,
    convert_xml_element_name, CodepointRange, TextConstraintError,
};

#[test]
fn reject_empty_string_for_elements() {
    assert_eq!(check_xml_element_name("", false), Some(TextConstraintError::EmptyString));
}

#[test]
fn reject_element_name_starting_with_number() {
    assert_eq!(
        check_xml_element_name("0foo", false),
        Some(TextConstraintError::InvalidCharacter(0, '0'))
    );
}

#[test]
fn accept_plain_element_name() {
    assert_eq!(check_xml_element_name("message", false), None);
    assert_eq!(check_xml_element_name("stream:stream", false), None);
}

#[test]
fn attribute_hack_accepts_separator_after_first_char() {
    assert!(check_xml_element_name("a\u{1}b", true).is_none());
    assert!(check_xml_element_name("a\u{1}b", false).is_some());
    assert_eq!(
        check_xml_element_name("\u{1}b", true),
        Some(TextConstraintError::InvalidCharacter(0, '\u{1}'))
    );
}

#[test]
fn cdata_rejects_control_characters() {
    assert_eq!(check_xml_cdata("hello world"), None);
    assert_eq!(
        check_xml_cdata("ab\u{0}cd"),
        Some(TextConstraintError::InvalidCharacter(2, '\u{0}'))
    );
}

#[test]
fn codepoint_range_contains_is_inclusive() {
    let r = CodepointRange('a', 'z');
    assert!(r.contains('a'));
    assert!(r.contains('m'));
    assert!(r.contains('z'));
    assert!(!r.contains('A'));
}

#[test]
fn char_class_checks_match_xml_productions() {
    assert!(check_valid_name_start_char('a'));
    assert!(check_valid_name_start_char(':'));
    assert!(!check_valid_name_start_char('-'));
    assert!(check_valid_name_char('-'));
    assert!(check_valid_name_char('7'));
    assert!(!check_valid_name_char(' '));
    assert!(check_valid_cdata_char(' '));
    assert!(!check_valid_cdata_char('\u{1}'));
}

#[test]
fn convert_functions_decode_utf8_and_validate() {
    assert_eq!(convert_xml_element_name(b"body").unwrap(), "body");
    assert_eq!(
        convert_xml_element_name(&[0xff, 0xfe]),
        Err(TextConstraintError::InvalidUtf8)
    );
    assert_eq!(convert_xml_element_name(b"0bad"), Err(TextConstraintError::InvalidCharacter(0, '0')));
    assert_eq!(convert_xml_attribute_name(b"ns\x01local").unwrap(), "ns\u{1}local");
    assert_eq!(convert_xml_cdata(b"hello").unwrap(), "hello");
    assert!(convert_xml_cdata(&[0x01]).is_err());
}
