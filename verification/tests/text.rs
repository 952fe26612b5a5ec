use ionize::draw::err::DrawErr;
use ionize::draw::model::{normalize, xml_char, Align};
use ionize::draw::svg::{name_char, name_start, validate_name, write_normalized, xml};
use ionize::err::LayoutErr;
use ionize::text::{decimal_string, push_decimal};

#[test]
fn xml_chars() {
    assert!(xml_char('\t'));
    assert!(xml_char('\n'));
    assert!(xml_char('\r'));
    assert!(xml_char(' '));
    assert!(xml_char('\u{D7FF}'));
    assert!(xml_char('\u{E000}'));
    assert!(xml_char('\u{FFFD}'));
    assert!(xml_char('\u{10000}'));
    assert!(xml_char('\u{10FFFF}'));
    assert!(!xml_char('\u{0}'));
    assert!(!xml_char('\u{1F}'));
    assert!(!xml_char('\u{FFFE}'));
    assert!(!xml_char('\u{FFFF}'));
}

#[test]
fn normalize_replaces_what_xml_cannot_hold() {
    assert_eq!(normalize("plain"), "plain");
    assert_eq!(normalize("a\u{0}b\u{FFFF}c"), "a\u{FFFD}b\u{FFFD}c");
    assert_eq!(normalize(""), "");
    assert_eq!(normalize("tab\there"), "tab\there");
}

#[test]
fn name_characters() {
    assert!(name_start('a'));
    assert!(name_start('Z'));
    assert!(name_start('_'));
    assert!(name_start('\u{C0}'));
    assert!(!name_start('-'));
    assert!(!name_start('1'));
    assert!(!name_start(':'));
    assert!(name_char('-'));
    assert!(name_char('.'));
    assert!(name_char('9'));
    assert!(name_char('\u{B7}'));
    assert!(!name_char(' '));
    assert!(!name_char('\u{D7}'));
}

#[test]
fn validates_names() {
    assert!(validate_name("data-block-id", "attribute").is_ok());
    assert!(validate_name("_x1", "attribute").is_ok());
    match validate_name("1abc", "attribute") {
        Err(DrawErr::Invalid(msg)) => {
            assert_eq!(msg, "attribute \"1abc\" is not a valid XML name")
        }
        other => panic!("unexpected {other:?}"),
    }
    match validate_name("", "metadata tag") {
        Err(DrawErr::Invalid(msg)) => assert_eq!(msg, "metadata tag \"\" is not a valid XML name"),
        other => panic!("unexpected {other:?}"),
    }
    match validate_name("a b", "metadata field") {
        Err(DrawErr::Invalid(msg)) => {
            assert_eq!(msg, "metadata field \"a b\" is not a valid XML name")
        }
        other => panic!("unexpected {other:?}"),
    }
}

#[test]
fn escapes_markup() {
    let mut out = String::from("<t>");
    write_normalized(&mut out, "a & b < c > d \"e\" 'f'");
    assert_eq!(out, "<t>a &amp; b &lt; c &gt; d &quot;e&quot; &apos;f&apos;");
    let mut out = String::new();
    write_normalized(&mut out, "plain\u{0}");
    assert_eq!(out, "plain\u{0}");
}

#[test]
fn xml_escapes_and_replaces() {
    assert_eq!(xml("a<b&\u{1}"), "a&lt;b&amp;\u{FFFD}");
    assert_eq!(xml("\"'>"), "&quot;&apos;&gt;");
    assert_eq!(xml("ok"), "ok");
}

#[test]
fn xml_output_has_no_markup() {
    for text in ["<a href='x'>\"q\"</a>", "\u{0}\u{b}\u{fffe}&&", "plain é ✓", ""] {
        let out = xml(text);
        assert!(!out.contains(['<', '>', '"', '\'']));
        assert!(!out.contains(['\u{0}', '\u{b}', '\u{fffe}']));
    }
}

#[test]
fn decimal_numerals() {
    assert_eq!(decimal_string(0), "0");
    assert_eq!(decimal_string(7), "7");
    assert_eq!(decimal_string(10), "10");
    assert_eq!(decimal_string(18446744073709551615), "18446744073709551615");
    let mut s = String::from("n=");
    push_decimal(&mut s, 305);
    assert_eq!(s, "n=305");
}

#[test]
fn draw_errors() {
    assert!(matches!(DrawErr::new("bad".to_string()), DrawErr::Invalid(m) if m == "bad"));
    assert!(matches!(DrawErr::from(LayoutErr::NoRoot), DrawErr::Layout(LayoutErr::NoRoot)));
    assert_eq!(Align::default(), Align::Start);
}
