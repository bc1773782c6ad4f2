use std::borrow::Cow;

use smtp_codec::classes::{is_Let_dig, is_atext, is_qtextSMTP};
use smtp_codec::parse::{
    base64, number, sub_domain, Atom, Domain, Ldh_str, QcontentSMTP, Quoted_string, String,
    quoted_pairSMTP,
};
use smtp_codec::quoted::{escape_quoted, unescape_quoted};
use smtp_codec::types::{AtomOrQuoted, ParseError};

#[test]
fn test_subdomain() {
    let (rem, parsed) = sub_domain(b"example???").unwrap();
    assert_eq!(parsed, b"example");
    assert_eq!(rem, b"???");
}

#[test]
fn sub_domain_needs_a_letter_or_digit_first() {
    assert_eq!(sub_domain(b"-ab."), Err(ParseError::Invalid(0)));
    assert_eq!(sub_domain(b""), Err(ParseError::Incomplete));
    assert_eq!(sub_domain(b"abc"), Err(ParseError::Incomplete));
}

#[test]
fn ldh_str_stops_before_a_trailing_hyphen() {
    let (rem, parsed) = Ldh_str(b"a-b--c.").unwrap();
    assert_eq!(parsed, b"a-b");
    assert_eq!(rem, b"--c.");
    assert_eq!(Ldh_str(b"ab-"), Err(ParseError::Incomplete));
    let (rem, parsed) = Ldh_str(b".x").unwrap();
    assert_eq!(parsed, b"");
    assert_eq!(rem, b".x");
}

#[test]
fn domain_takes_every_label() {
    let (rem, parsed) = Domain(b"a.b-c.d9 ").unwrap();
    assert_eq!(parsed, "a.b-c.d9");
    assert_eq!(rem, b" ");
}

#[test]
fn domain_at_end_of_buffer_needs_more() {
    assert_eq!(Domain(b"a.b-c.d9"), Err(ParseError::Incomplete));
    assert_eq!(Domain(b"a."), Err(ParseError::Incomplete));
}

#[test]
fn domain_cannot_start_with_hyphen_or_dot() {
    assert_eq!(Domain(b"-a.b"), Err(ParseError::Invalid(0)));
    assert_eq!(Domain(b".a"), Err(ParseError::Invalid(0)));
}

#[test]
fn domain_label_cannot_end_in_hyphen() {
    let (rem, parsed) = Domain(b"a-.b").unwrap();
    assert_eq!(parsed, "a");
    assert_eq!(rem, b"-.b");
}

#[test]
fn domain_leaves_a_dot_without_label() {
    let (rem, parsed) = Domain(b"ab.-c").unwrap();
    assert_eq!(parsed, "ab");
    assert_eq!(rem, b".-c");
}

#[test]
fn atom_stops_at_non_atext() {
    let (rem, parsed) = Atom(b"foo@bar").unwrap();
    assert_eq!(parsed, "foo");
    assert_eq!(rem, b"@bar");
}

#[test]
fn atom_outcomes() {
    assert_eq!(Atom(b"@bar"), Err(ParseError::Invalid(0)));
    assert_eq!(Atom(b""), Err(ParseError::Incomplete));
    assert_eq!(Atom(b"foo"), Err(ParseError::Incomplete));
    let (rem, parsed) = Atom(b"a!#$%&'*+-/=?^_`{|}~9 x").unwrap();
    assert_eq!(parsed, "a!#$%&'*+-/=?^_`{|}~9");
    assert_eq!(rem, b" x");
}

#[test]
fn quoted_string_unescapes_quote() {
    let (rem, text) = Quoted_string(b"\"a\\\"b\"").unwrap();
    assert_eq!(text, "a\"b");
    assert!(matches!(text, Cow::Owned(_)));
    assert_eq!(rem, b"");
}

#[test]
fn quoted_string_borrows_plain_content() {
    let (rem, text) = Quoted_string(b"\"hello world\" rest").unwrap();
    assert_eq!(text, "hello world");
    assert!(matches!(text, Cow::Borrowed(_)));
    assert_eq!(rem, b" rest");
    let (rem, text) = Quoted_string(b"\"\"").unwrap();
    assert_eq!(text, "");
    assert_eq!(rem, b"");
}

#[test]
fn quoted_string_outcomes() {
    assert_eq!(Quoted_string(b"").unwrap_err(), ParseError::Incomplete);
    assert_eq!(Quoted_string(b"abc").unwrap_err(), ParseError::Invalid(0));
    assert_eq!(Quoted_string(b"\"abc").unwrap_err(), ParseError::Incomplete);
    assert_eq!(Quoted_string(b"\"a\\").unwrap_err(), ParseError::Incomplete);
    assert_eq!(Quoted_string(b"\"a\\b\"").unwrap_err(), ParseError::Invalid(2));
    assert_eq!(Quoted_string(b"\"a\x01\"").unwrap_err(), ParseError::Invalid(2));
    assert_eq!(Quoted_string(b"\"abc\\x\"").unwrap_err(), ParseError::Invalid(4));
}

#[test]
fn quoted_string_unescapes_backslash_then_quote() {
    let (_, text) = Quoted_string(b"\"\\\\\\\"x\"").unwrap();
    assert_eq!(text, "\\\"x");
}

#[test]
fn qcontent_and_quoted_pair() {
    let (rem, parsed) = QcontentSMTP(b"ab").unwrap();
    assert_eq!(parsed, b"a");
    assert_eq!(rem, b"b");
    let (rem, parsed) = QcontentSMTP(b"\\\"x").unwrap();
    assert_eq!(parsed, b"\\\"");
    assert_eq!(rem, b"x");
    assert_eq!(QcontentSMTP(b"\"").unwrap_err(), ParseError::Invalid(0));
    assert_eq!(QcontentSMTP(b"").unwrap_err(), ParseError::Incomplete);
    let (rem, parsed) = quoted_pairSMTP(b"\\\\").unwrap();
    assert_eq!(parsed, b"\\\\");
    assert_eq!(rem, b"");
    assert_eq!(quoted_pairSMTP(b"\\a").unwrap_err(), ParseError::Invalid(1));
    assert_eq!(quoted_pairSMTP(b"\\").unwrap_err(), ParseError::Incomplete);
    assert_eq!(quoted_pairSMTP(b"a").unwrap_err(), ParseError::Invalid(0));
}

#[test]
fn string_prefers_atom_then_quoted() {
    let (rem, value) = String(b"abc ").unwrap();
    assert_eq!(value, AtomOrQuoted::Atom("abc".to_owned()));
    assert_eq!(rem, b" ");
    let (rem, value) = String(b"\"a b\" ").unwrap();
    assert_eq!(value, AtomOrQuoted::Quoted("a b".to_owned()));
    assert_eq!(rem, b" ");
    assert_eq!(String(b"abc").unwrap_err(), ParseError::Incomplete);
    assert_eq!(String(b"@").unwrap_err(), ParseError::Invalid(0));
}

#[test]
fn number_accepts_leading_zeros() {
    let (rem, value) = number(b"007 ").unwrap();
    assert_eq!(value, 7);
    assert_eq!(rem, b" ");
}

#[test]
fn number_outcomes() {
    assert_eq!(number(b"007"), Err(ParseError::Incomplete));
    assert_eq!(number(b""), Err(ParseError::Incomplete));
    assert_eq!(number(b"x1"), Err(ParseError::Invalid(0)));
    assert_eq!(number(b"4294967295\r"), Ok((&b"\r"[..], 4294967295)));
    assert_eq!(number(b"4294967296\r"), Err(ParseError::Invalid(0)));
    assert_eq!(number(b"00000000000000000012\r"), Ok((&b"\r"[..], 12)));
}

#[test]
fn base64_takes_padding() {
    let (rem, parsed) = base64(b"QQ==").unwrap();
    assert_eq!(parsed, "QQ==");
    assert_eq!(rem, b"");
    let (rem, parsed) = base64(b"QQ=x").unwrap();
    assert_eq!(parsed, "QQ=");
    assert_eq!(rem, b"x");
    let (rem, parsed) = base64(b"a+/9\r\n").unwrap();
    assert_eq!(parsed, "a+/9");
    assert_eq!(rem, b"\r\n");
}

#[test]
fn base64_at_end_of_buffer_needs_more() {
    assert_eq!(base64(b"QQ"), Err(ParseError::Incomplete));
    assert_eq!(base64(b"QQ="), Err(ParseError::Incomplete));
    assert_eq!(base64(b""), Err(ParseError::Incomplete));
}

#[test]
fn escape_then_unescape_round_trips() {
    for s in ["", "plain", "a\"b", "back\\slash", "\\\"", "\\\\\"\"", "é\"ü"] {
        let escaped = escape_quoted(s);
        assert_eq!(unescape_quoted(&escaped), s);
    }
}

#[test]
fn escape_quoted_values() {
    assert_eq!(escape_quoted("a\"b\\c"), "a\\\"b\\\\c");
    assert!(matches!(escape_quoted("plain"), Cow::Borrowed("plain")));
    assert!(matches!(escape_quoted("a\\"), Cow::Owned(_)));
}

#[test]
fn unescape_then_escape_round_trips() {
    for w in ["", "abc", "a\\\"b", "\\\\", "\\\\\\\"", "x\\\\y\\\"z"] {
        let unescaped = unescape_quoted(w);
        assert_eq!(escape_quoted(&unescaped), w);
    }
}

#[test]
fn unescape_quoted_values() {
    assert_eq!(unescape_quoted("a\\\"b\\\\c"), "a\"b\\c");
    assert!(matches!(unescape_quoted("a\\b"), Cow::Borrowed("a\\b")));
    assert_eq!(unescape_quoted("\\\\\""), "\"");
}

#[test]
fn byte_classes() {
    assert!(is_atext(b'a') && is_atext(b'Z') && is_atext(b'7') && is_atext(b'~'));
    assert!(!is_atext(b'@') && !is_atext(b'"') && !is_atext(b' ') && !is_atext(b'.'));
    assert!(is_qtextSMTP(b' ') && is_qtextSMTP(b'!') && is_qtextSMTP(b'#') && is_qtextSMTP(b'~'));
    assert!(!is_qtextSMTP(b'"') && !is_qtextSMTP(b'\\') && !is_qtextSMTP(31) && !is_qtextSMTP(127));
    assert!(is_Let_dig(b'q') && is_Let_dig(b'0') && !is_Let_dig(b'-') && !is_Let_dig(b'_'));
}

#[test]
fn decision_survives_more_input() {
    assert_eq!(sub_domain(b"example???"), sub_domain(b"example???more").map(|(_, p)| (&b"???"[..], p)));
    assert_eq!(number(b"12 ").map(|(_, v)| v), number(b"12 34").map(|(_, v)| v));
    assert_eq!(Domain(b"-a"), Err(ParseError::Invalid(0)));
    assert_eq!(Domain(b"-a.example.com"), Err(ParseError::Invalid(0)));
    assert_eq!(base64(b"QQ==").map(|(_, p)| p), base64(b"QQ==\r\n").map(|(_, p)| p));
    assert_eq!(number(b"12"), Err(ParseError::Incomplete));
}
