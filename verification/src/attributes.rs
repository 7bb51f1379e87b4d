//! The attribute scanner and the attributes it yields.

use vstd::prelude::*;
use vstd::slice::slice_subrange;
use vstd::string::StringSliceAdditionalSpecFns;
use vstd::utf8::{decode_utf8, encode_utf8, valid_utf8};

use crate::ascii::{B_AMP, B_DQUOTE, B_EQ, B_SQUOTE};
use crate::errors::AttrError;
use crate::escape::{escape, escaped, lemma_unescaped_no_amp, unescape, unescaped};
use crate::model::{
    first_dup, lemma_first_dup_found, lemma_first_dup_none, scan, ScanState, ScanStep,
};
use crate::search::{find_byte, find_first, range_matches, slices_equal, Pred};

verus! {

/// An attribute value: borrowed from the scanned buffer, or owned once a
/// transformation produced bytes of its own.
#[derive(Debug, Clone)]
pub enum Value<'a> {
    /// A slice of the caller's buffer.
    Borrowed(&'a [u8]),
    /// Bytes of the value's own.
    Owned(Vec<u8>),
}

impl<'a> View for Value<'a> {
    type V = Seq<u8>;

    open spec fn view(&self) -> Seq<u8> {
        match self {
            Value::Borrowed(b) => b@,
            Value::Owned(v) => v@,
        }
    }
}

impl<'a> Value<'a> {
    /// The bytes, whichever side holds them.
    pub fn as_bytes<'s>(&'s self) -> (r: &'s [u8])
        ensures
            r@ == self@,
    {
        match self {
            Value::Borrowed(b) => b,
            Value::Owned(v) => v.as_slice(),
        }
    }
}

impl<'a> PartialEq for Value<'a> {
    /// Values are equal when they hold the same bytes, whichever side
    /// holds them.
    fn eq(&self, other: &Value<'a>) -> (r: bool) {
        slices_equal(self.as_bytes(), other.as_bytes())
    }
}

impl<'a> vstd::std_specs::cmp::PartialEqSpecImpl for Value<'a> {
    open spec fn obeys_eq_spec() -> bool {
        true
    }

    open spec fn eq_spec(&self, other: &Value<'a>) -> bool {
        self@ == other@
    }
}

impl<'a> Eq for Value<'a> {

}

/// One `key="value"` / `key='value'` pair. The value keeps its raw bytes:
/// entity references inside it stay intact until the caller resolves
/// them.
#[derive(Debug, Clone)]
pub struct Attribute<'a> {
    /// The name; never empty and free of quote bytes when the scanner
    /// produced it with uniqueness enforcement on.
    pub key: &'a [u8],
    /// The raw value.
    pub value: Value<'a>,
}

impl<'a> PartialEq for Attribute<'a> {
    /// An attribute has no identity beyond its pair: equality is
    /// structural, on the key bytes and the value bytes.
    fn eq(&self, other: &Attribute<'a>) -> (r: bool) {
        slices_equal(self.key, other.key) && self.value == other.value
    }
}

impl<'a> vstd::std_specs::cmp::PartialEqSpecImpl for Attribute<'a> {
    open spec fn obeys_eq_spec() -> bool {
        true
    }

    open spec fn eq_spec(&self, other: &Attribute<'a>) -> bool {
        self.key@ == other.key@ && self.value@ == other.value@
    }
}

impl<'a> Eq for Attribute<'a> {

}

impl<'a> Attribute<'a> {
    /// Wrap a raw key/value pair as an attribute, transforming neither.
    pub fn from_raw(key: &'a [u8], value: &'a [u8]) -> (r: Attribute<'a>)
        ensures
            r.key@ == key@,
            r.value@ == value@,
            r.value is Borrowed,
    {
        Attribute { key, value: Value::Borrowed(value) }
    }

    /// Wrap a text key/value pair as an attribute: the key is kept as its
    /// bytes, the value is escaped, so resolving it later loses nothing.
    pub fn from_text(key: &'a str, value: &'a str) -> (r: Attribute<'a>)
        ensures
            r.key@ == key.spec_bytes(),
            r.value@ == escaped(value.spec_bytes()),
            r.value is Owned,
    {
        Attribute { key: key.as_bytes(), value: Value::Owned(escape(value.as_bytes())) }
    }

    /// Resolve the entity references in the value: the bytes are borrowed
    /// when no `&` occurs, owned otherwise, and a malformed reference is
    /// an `EscapeError` at its offset within the value.
    pub fn unescaped_value<'s>(&'s self) -> (r: Result<Value<'s>, AttrError>)
        ensures
            match unescaped(self.value@) {
                Ok(u) => r matches Ok(v) && v@ == u && ((v is Borrowed) <==> (forall|j: int|
                    0 <= j < self.value@.len() ==> self.value@[j] != B_AMP)),
                Err(e) => r == Err::<Value<'s>, AttrError>(AttrError::EscapeError(e as usize)),
            },
    {
        let raw = self.value.as_bytes();
        match find_byte(raw, 0, raw.len(), B_AMP) {
            None => {
                proof {
                    lemma_unescaped_no_amp(raw@, 0);
                    assert(raw@.subrange(0, raw@.len() as int) =~= raw@);
                }
                Ok(Value::Borrowed(raw))
            },
            Some(i) => {
                proof {
                    crate::search::lemma_first_byte_some(raw@, 0, raw@.len() as int, B_AMP);
                    assert(raw@[i as int] == B_AMP);
                }
                match unescape(raw) {
                    Ok(v) => Ok(Value::Owned(v)),
                    Err(i) => Err(AttrError::EscapeError(i)),
                }
            },
        }
    }

    /// Resolve the entity references in the value, then decode the result
    /// as UTF-8 text. An escape fault comes first; bytes that are not
    /// valid UTF-8 are a `DecodingFault` carrying the length of a prefix
    /// that still decodes.
    pub fn unescape_and_decode_value(&self) -> (r: Result<String, AttrError>)
        ensures
            match unescaped(self.value@) {
                Err(e) => r == Err::<String, AttrError>(AttrError::EscapeError(e as usize)),
                Ok(u) => {
                    &&& valid_utf8(u) ==> (r matches Ok(s) && s@ == decode_utf8(u)
                        && encode_utf8(s@) == u)
                    &&& !valid_utf8(u) ==> (r matches Err(f) && (f matches
                        AttrError::DecodingFault(k) && k <= u.len() && valid_utf8(
                        u.subrange(0, k as int),
                    )))
                },
            },
    {
        let resolved = match self.unescaped_value() {
            Ok(v) => v,
            Err(e) => {
                return Err(e);
            },
        };
        match bytes_to_str(resolved.as_bytes()) {
            Ok(s) => {
                proof {
                    vstd::utf8::encode_utf8_decode_utf8(s@);
                }
                Ok(s.to_owned())
            },
            Err(k) => Err(AttrError::DecodingFault(k)),
        }
    }
}

/// Relies on `core::str::from_utf8`: it succeeds exactly when the bytes
/// are valid UTF-8 and then returns the string view of those same bytes;
/// on failure, `Utf8Error::valid_up_to` gives an index up to which the
/// bytes were verified valid.
#[verifier::external_body]
fn bytes_to_str<'x>(v: &'x [u8]) -> (r: Result<&'x str, usize>)
    ensures
        r is Ok <==> valid_utf8(v@),
        r matches Ok(s) ==> s.spec_bytes() == v@,
        r matches Err(k) ==> k <= v@.len() && valid_utf8(v@.subrange(0, k as int)),
{
    core::str::from_utf8(v).map_err(|e| e.valid_up_to())
}

/// Forward-only scanner over the attribute region of one start-tag: the
/// bytes that follow the element name, whose final byte is the closing
/// delimiter boundary. Each advance yields one attribute, an error that
/// exhausts the scanner for good, or the end of the sequence.
#[derive(Clone)]
pub struct Attributes<'a> {
    /// The attribute region, borrowed for the scanner's whole life.
    bytes: &'a [u8],
    /// The cursor; it never moves backwards.
    position: usize,
    /// Sticky flag: an error sets it, nothing clears it.
    exhausted: bool,
    /// Whether name uniqueness and the related shape checks are enforced.
    enforce_uniqueness: bool,
    /// Name ranges already emitted, in scan order, kept while
    /// `enforce_uniqueness` is on.
    seen: Vec<(usize, usize)>,
}

impl<'a> View for Attributes<'a> {
    type V = ScanState;

    closed spec fn view(&self) -> ScanState {
        ScanState {
            bytes: self.bytes@,
            position: self.position as int,
            exhausted: self.exhausted,
            checks: self.enforce_uniqueness,
            seen: self.seen@,
        }
    }
}

impl<'a> Attributes<'a> {
    /// A scanner over `buf` starting at `pos`, with uniqueness
    /// enforcement on.
    pub fn new(buf: &'a [u8], pos: usize) -> (r: Attributes<'a>)
        requires
            pos <= buf@.len(),
        ensures
            r@.bytes == buf@,
            r@.position == pos as int,
            !r@.exhausted,
            r@.checks,
            r@.seen == Seq::<(usize, usize)>::empty(),
            r@.wf(),
    {
        proof {
            vstd::slice::axiom_spec_len(buf);
        }
        Attributes {
            bytes: buf,
            position: pos,
            exhausted: false,
            enforce_uniqueness: true,
            seen: Vec::new(),
        }
    }

    /// Turn uniqueness enforcement on or off; ranges already recorded are
    /// kept. Hands the scanner back for chaining.
    pub fn with_checks(&mut self, val: bool) -> (r: &mut Attributes<'a>)
        ensures
            (*r)@ == (ScanState { checks: val, ..old(self)@ }),
            *final(self) == *final(r),
    {
        self.enforce_uniqueness = val;
        self
    }

    /// The start of the first recorded range whose bytes equal
    /// `bytes[ks .. ke)`, if any.
    fn find_duplicate(&self, ks: usize, ke: usize) -> (r: Option<usize>)
        requires
            self@.wf(),
            ks <= ke <= self@.bytes.len(),
        ensures
            match r {
                Some(fs) => first_dup(self@.bytes, self@.seen, ks as int, ke as int) == Some(fs),
                None => first_dup(self@.bytes, self@.seen, ks as int, ke as int) == None::<
                    usize,
                >,
            },
    {
        let n = self.seen.len();
        let mut i: usize = 0;
        while i < n
            invariant
                self@.wf(),
                ks <= ke <= self@.bytes.len(),
                n == self@.seen.len(),
                i <= n,
                forall|k: int|
                    0 <= k < i ==> self@.bytes.subrange(
                        (#[trigger] self@.seen[k]).0 as int,
                        self@.seen[k].1 as int,
                    ) != self@.bytes.subrange(ks as int, ke as int),
            decreases n - i,
        {
            let range = self.seen[i];
            if range_matches(self.bytes, range.0, range.1, ks, ke) {
                proof {
                    lemma_first_dup_found(
                        self@.bytes,
                        self@.seen,
                        ks as int,
                        ke as int,
                        i as int,
                    );
                }
                return Some(range.0);
            }
            i = i + 1;
        }
        proof {
            lemma_first_dup_none(self@.bytes, self@.seen, ks as int, ke as int);
        }
        None
    }

    /// Advance through one attribute. Yields the attribute, or the error
    /// that exhausts the scanner, or `None` at the end of the sequence;
    /// the outcome and the new state are exactly one advance of the
    /// model.
    pub fn next(&mut self) -> (r: Option<Result<Attribute<'a>, AttrError>>)
        requires
            old(self)@.wf(),
        ensures
            final(self)@.wf(),
            final(self)@ == scan(old(self)@).state,
            (match scan(old(self)@).out {
                ScanStep::End => r is None,
                ScanStep::Fail(e) => r == Some(Err::<Attribute<'a>, AttrError>(e)),
                ScanStep::Item { key_start, key_end, val_start, val_end } => {
                    &&& r matches Some(Ok(a))
                    &&& a.key@ == old(self)@.bytes.subrange(key_start, key_end)
                    &&& a.value matches Value::Borrowed(v)
                    &&& v@ == old(self)@.bytes.subrange(val_start, val_end)
                },
            }),
    {
        proof {
            crate::model::lemma_item_ranges(self@);
        }
        if self.exhausted {
            return None;
        }
        let len = self.bytes.len();
        let p = self.position;
        if len <= p {
            return None;
        }
        // skip to the first whitespace byte of the window
        let w = match find_first(self.bytes, p, len - 1, Pred::Ws) {
            Some(i) => i,
            None => {
                self.position = len;
                return None;
            },
        };
        // then past it to the first non-whitespace byte: the name's start
        let start_key = match find_first(self.bytes, w + 1, len - 1, Pred::NonWs) {
            Some(i) => i,
            None => {
                self.position = len;
                return None;
            },
        };
        // the name ends at `=` or whitespace
        let end_key = match find_first(self.bytes, start_key + 1, len - 1, Pred::KeyEnd) {
            Some(i) => i,
            None => {
                self.position = len;
                return None;
            },
        };
        if self.enforce_uniqueness {
            if let Some(q) = find_first(self.bytes, start_key, end_key, Pred::QuoteAny) {
                self.exhausted = true;
                return Some(Err(AttrError::NameContainsQuote(q)));
            }
            if let Some(fs) = self.find_duplicate(start_key, end_key) {
                self.exhausted = true;
                return Some(Err(AttrError::DuplicateAttributeName(start_key, fs)));
            }
            self.seen.push((start_key, end_key));
        }
        // the value follows the next `=`
        let eq = match find_byte(self.bytes, end_key, len - 1, B_EQ) {
            Some(i) => i,
            None => {
                self.position = len;
                return None;
            },
        };
        if self.enforce_uniqueness {
            if let Some(i) = find_first(self.bytes, end_key, eq, Pred::NonWs) {
                self.exhausted = true;
                return Some(Err(AttrError::MissingEqualsAfterName(i)));
            }
        }
        // the value must open with a quote
        let qpos = match find_first(self.bytes, eq + 1, len - 1, Pred::NonWs) {
            Some(i) => i,
            None => {
                self.position = len;
                return None;
            },
        };
        let quote = self.bytes[qpos];
        if !(quote == B_SQUOTE || quote == B_DQUOTE) {
            self.exhausted = true;
            return Some(Err(AttrError::UnquotedValue(qpos)));
        }
        // the value ends at the matching quote, searched to the buffer's
        // true end
        let end_val = match find_byte(self.bytes, qpos + 1, len, quote) {
            Some(i) => i,
            None => {
                self.position = len;
                return None;
            },
        };
        self.position = end_val + 1;
        let key = slice_subrange(self.bytes, start_key, end_key);
        let value = slice_subrange(self.bytes, qpos + 1, end_val);
        Some(Ok(Attribute { key, value: Value::Borrowed(value) }))
    }
}

} // verus!
