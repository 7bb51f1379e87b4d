//! Errors reported while scanning an attribute list or resolving a value.

use vstd::prelude::*;

verus! {

/// One scanning or resolution fault, carrying absolute byte offsets for
/// diagnostics. Scanning errors refer to the scanned buffer; escape and
/// decoding faults refer to the value bytes they were raised on.
#[derive(Clone, Copy, Debug, PartialEq, Eq, Structural)]
pub enum AttrError {
    /// An attribute name contains a `'` or `"` byte; carries its offset.
    NameContainsQuote(usize),
    /// An attribute name is byte-equal to an earlier one in the same tag;
    /// carries the offset of this name and of the first-seen name.
    DuplicateAttributeName(usize, usize),
    /// A non-whitespace byte other than `=` stands between a name and the
    /// following `=`; carries its offset.
    MissingEqualsAfterName(usize),
    /// The first non-whitespace byte after `=` is not a quote; carries its
    /// offset.
    UnquotedValue(usize),
    /// A malformed or unterminated entity reference; carries the offset of
    /// its leading `&` within the value.
    EscapeError(usize),
    /// The value is not valid UTF-8; carries the length of a prefix that
    /// still decodes.
    DecodingFault(usize),
}

} // verus!
