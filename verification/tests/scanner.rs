use xml_attributes::attributes::{Attribute, Attributes, Value};
use xml_attributes::errors::AttrError;

fn value_bytes(a: &Attribute) -> Vec<u8> {
    a.value.as_bytes().to_vec()
}

#[test]
fn empty_buffer_yields_end() {
    let mut attrs = Attributes::new(b"", 0);
    assert!(attrs.next().is_none());
    assert!(attrs.next().is_none());
}

#[test]
fn whitespace_only_yields_end() {
    let mut attrs = Attributes::new(b"   ", 0);
    assert!(attrs.next().is_none());
    assert!(attrs.next().is_none());
}

#[test]
fn start_offset_at_end_yields_end() {
    let buf = b" a='1'";
    let mut attrs = Attributes::new(buf, buf.len());
    assert!(attrs.next().is_none());
}

#[test]
fn three_attributes() {
    let mut attrs = Attributes::new(b" a='1' b=\"2\" c='3'", 0);
    let first = attrs.next().unwrap().unwrap();
    assert_eq!(first.key, b"a");
    assert_eq!(value_bytes(&first), b"1");
    let second = attrs.next().unwrap().unwrap();
    assert_eq!(second.key, b"b");
    assert_eq!(value_bytes(&second), b"2");
    let third = attrs.next().unwrap().unwrap();
    assert_eq!(third.key, b"c");
    assert_eq!(value_bytes(&third), b"3");
    assert!(attrs.next().is_none());
    assert!(attrs.next().is_none());
}

#[test]
fn scanned_values_are_borrowed() {
    let mut attrs = Attributes::new(b" key=\"value\" ", 0);
    let attr = attrs.next().unwrap().unwrap();
    assert_eq!(attr.key, b"key");
    match attr.value {
        Value::Borrowed(v) => assert_eq!(v, b"value"),
        Value::Owned(_) => panic!("a scanned value must borrow the buffer"),
    }
}

#[test]
fn duplicate_name_is_an_error_and_sticks() {
    let mut attrs = Attributes::new(b" a='1' a='2'", 0);
    let first = attrs.next().unwrap().unwrap();
    assert_eq!(first.key, b"a");
    assert_eq!(value_bytes(&first), b"1");
    let err = attrs.next().unwrap().unwrap_err();
    assert_eq!(err, AttrError::DuplicateAttributeName(7, 1));
    assert!(attrs.next().is_none());
    assert!(attrs.next().is_none());
}

#[test]
fn duplicate_name_allowed_without_checks() {
    let mut attrs = Attributes::new(b" a='1' a='2'", 0);
    attrs.with_checks(false);
    let first = attrs.next().unwrap().unwrap();
    let second = attrs.next().unwrap().unwrap();
    assert_eq!(first.key, b"a");
    assert_eq!(second.key, b"a");
    assert_eq!(value_bytes(&first), b"1");
    assert_eq!(value_bytes(&second), b"2");
    assert!(attrs.next().is_none());
}

#[test]
fn unquoted_value_is_an_error() {
    let mut attrs = Attributes::new(b" a=1 ", 0);
    let err = attrs.next().unwrap().unwrap_err();
    assert_eq!(err, AttrError::UnquotedValue(3));
    assert!(attrs.next().is_none());
}

#[test]
fn quote_inside_name_is_an_error() {
    let mut attrs = Attributes::new(b" a\"b='v' ", 0);
    let err = attrs.next().unwrap().unwrap_err();
    assert_eq!(err, AttrError::NameContainsQuote(2));
    assert!(attrs.next().is_none());
}

#[test]
fn junk_before_equals_is_an_error() {
    let mut attrs = Attributes::new(b" a b='1' ", 0);
    let err = attrs.next().unwrap().unwrap_err();
    assert_eq!(err, AttrError::MissingEqualsAfterName(3));
    assert!(attrs.next().is_none());
}

#[test]
fn junk_before_equals_tolerated_without_checks() {
    let mut attrs = Attributes::new(b" a b='1' ", 0);
    attrs.with_checks(false);
    let attr = attrs.next().unwrap().unwrap();
    assert_eq!(attr.key, b"a");
    assert_eq!(value_bytes(&attr), b"1");
}

#[test]
fn unterminated_value_is_silent_end() {
    let mut attrs = Attributes::new(b" a='1", 0);
    assert!(attrs.next().is_none());
    assert!(attrs.next().is_none());
}

#[test]
fn missing_equals_is_silent_end() {
    let mut attrs = Attributes::new(b" standalone ", 0);
    assert!(attrs.next().is_none());
}

#[test]
fn value_may_end_at_the_buffer_end() {
    let mut attrs = Attributes::new(b" a='1'", 0);
    let attr = attrs.next().unwrap().unwrap();
    assert_eq!(attr.key, b"a");
    assert_eq!(value_bytes(&attr), b"1");
    assert!(attrs.next().is_none());
}

#[test]
fn start_offset_skips_the_element_name() {
    let mut attrs = Attributes::new(b"tag a='1'", 3);
    let attr = attrs.next().unwrap().unwrap();
    assert_eq!(attr.key, b"a");
    assert_eq!(value_bytes(&attr), b"1");
    assert!(attrs.next().is_none());
}

#[test]
fn key_and_value_ranges_do_not_overlap() {
    let buf: &[u8] = b" a='1' bb=\"22\" ";
    let base = buf.as_ptr() as usize;
    let offset_of = |s: &[u8]| (s.as_ptr() as usize - base, s.len());
    let mut attrs = Attributes::new(buf, 0);
    let first = attrs.next().unwrap().unwrap();
    let second = attrs.next().unwrap().unwrap();
    let (k1, k1n) = offset_of(first.key);
    let (v1, v1n) = offset_of(first.value.as_bytes());
    let (k2, k2n) = offset_of(second.key);
    let (v2, v2n) = offset_of(second.value.as_bytes());
    assert!(0 < k1 && k1 + k1n <= v1);
    assert!(v1 + v1n <= k2 && k2 + k2n <= v2);
    assert!(v2 + v2n < buf.len());
}

#[test]
fn single_and_double_quotes_mix() {
    let mut attrs = Attributes::new(b" q=\"it's\" p='say \"hi\"' ", 0);
    let first = attrs.next().unwrap().unwrap();
    assert_eq!(first.key, b"q");
    assert_eq!(value_bytes(&first), b"it's");
    let second = attrs.next().unwrap().unwrap();
    assert_eq!(second.key, b"p");
    assert_eq!(value_bytes(&second), b"say \"hi\"");
}
