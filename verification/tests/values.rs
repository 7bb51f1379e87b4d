use xml_attributes::attributes::{Attribute, Attributes, Value};
use xml_attributes::errors::AttrError;
use xml_attributes::escape::{escape, unescape};

#[test]
fn escape_rewrites_the_five_special_bytes() {
    assert_eq!(escape(b"<>&'\""), b"&lt;&gt;&amp;&apos;&quot;".to_vec());
    assert_eq!(escape(b"plain"), b"plain".to_vec());
}

#[test]
fn unescape_resolves_named_references() {
    assert_eq!(unescape(b"val &amp; more"), Ok(b"val & more".to_vec()));
    assert_eq!(unescape(b"&lt;a&gt;"), Ok(b"<a>".to_vec()));
}

#[test]
fn unescape_rejects_unknown_references() {
    assert_eq!(unescape(b"&nope;"), Err(0));
    assert_eq!(unescape(b"x&#65;"), Err(1));
}

#[test]
fn unescape_rejects_unterminated_references() {
    assert_eq!(unescape(b"a&"), Err(1));
    assert_eq!(unescape(b"a&amp"), Err(1));
}

#[test]
fn escape_then_unescape_round_trips() {
    let original: &[u8] = b"val & more <\"quoted\">";
    assert_eq!(unescape(&escape(original)), Ok(original.to_vec()));
}

#[test]
fn unescaped_value_resolves_references() {
    let attr = Attribute::from_raw(b"k", b"val &amp; more");
    match attr.unescaped_value().unwrap() {
        Value::Owned(v) => assert_eq!(v, b"val & more".to_vec()),
        Value::Borrowed(_) => panic!("a resolved reference forces owned bytes"),
    }
}

#[test]
fn unescaped_value_borrows_when_nothing_resolves() {
    let attr = Attribute::from_raw(b"k", b"plain value");
    match attr.unescaped_value().unwrap() {
        Value::Borrowed(v) => assert_eq!(v, b"plain value"),
        Value::Owned(_) => panic!("a value without references stays borrowed"),
    }
}

#[test]
fn unescaped_value_reports_the_fault_offset() {
    let attr = Attribute::from_raw(b"k", b"ab&oops;");
    let err = attr.unescaped_value().unwrap_err();
    assert_eq!(err, AttrError::EscapeError(2));
}

#[test]
fn from_text_escapes_the_value_only() {
    let attr = Attribute::from_text("features", "Bells & whistles");
    assert_eq!(attr.key, b"features");
    assert_eq!(attr.value.as_bytes(), b"Bells &amp; whistles");
}

#[test]
fn text_constructor_round_trips() {
    let attr = Attribute::from_text("k", "val & more <\"quoted\">");
    let resolved = attr.unescaped_value().unwrap();
    assert_eq!(resolved.as_bytes(), b"val & more <\"quoted\">");
}

#[test]
fn decode_after_unescape() {
    let attr = Attribute::from_raw(b"k", b"Bells &amp; whistles");
    assert_eq!(attr.unescape_and_decode_value(), Ok("Bells & whistles".to_string()));
}

#[test]
fn decode_keeps_multibyte_text() {
    let attr = Attribute::from_raw(b"k", "caf\u{e9} &amp; th\u{e9}".as_bytes());
    assert_eq!(
        attr.unescape_and_decode_value(),
        Ok("caf\u{e9} & th\u{e9}".to_string())
    );
}

#[test]
fn decode_rejects_invalid_utf8() {
    let attr = Attribute::from_raw(b"k", b"ok\xffbad");
    assert_eq!(
        attr.unescape_and_decode_value(),
        Err(AttrError::DecodingFault(2))
    );
}

#[test]
fn escape_fault_comes_before_decoding() {
    let attr = Attribute::from_raw(b"k", b"\xff&oops;");
    assert_eq!(
        attr.unescape_and_decode_value(),
        Err(AttrError::EscapeError(1))
    );
}

#[test]
fn attribute_equality_is_structural() {
    let mut attrs = Attributes::new(b" a='1' ", 0);
    let scanned = attrs.next().unwrap().unwrap();
    assert_eq!(scanned, Attribute::from_raw(b"a", b"1"));
    assert_ne!(scanned, Attribute::from_raw(b"a", b"2"));
    assert_ne!(scanned, Attribute::from_raw(b"b", b"1"));
}

#[test]
fn value_equality_ignores_ownership() {
    assert_eq!(Value::Borrowed(b"x"), Value::Owned(b"x".to_vec()));
    assert_ne!(Value::Borrowed(b"x"), Value::Owned(b"y".to_vec()));
}

#[test]
fn scanned_value_keeps_references_until_resolved() {
    let mut attrs = Attributes::new(b" a=\"val &amp; more\" ", 0);
    let attr = attrs.next().unwrap().unwrap();
    assert_eq!(attr.value.as_bytes(), b"val &amp; more");
    let resolved = attr.unescaped_value().unwrap();
    assert_eq!(resolved.as_bytes(), b"val & more");
}
