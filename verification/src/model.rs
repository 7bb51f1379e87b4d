//! The mathematical model of the scanner: its state, the outcome of one
//! advance, and the advance itself, stated over byte sequences.
//!
//! One advance walks the half-open window between the cursor and the
//! buffer's last byte — that byte is the tag's closing delimiter boundary
//! and never attribute content — except for the search that closes a
//! value, which may run to the buffer's true end.

use vstd::prelude::*;

use crate::errors::AttrError;
use crate::search::{
    first_byte, first_where, is_quote, lemma_first_byte_some, lemma_first_where_some, Pred,
};

verus! {

/// The scanner's state, as contracts speak of it.
pub ghost struct ScanState {
    /// The scanned buffer.
    pub bytes: Seq<u8>,
    /// The cursor.
    pub position: int,
    /// Sticky flag: set by an error, never cleared afterwards.
    pub exhausted: bool,
    /// Whether name uniqueness and the related shape checks are enforced.
    pub checks: bool,
    /// Name ranges already emitted, in scan order, kept when `checks` is on.
    pub seen: Seq<(usize, usize)>,
}

impl ScanState {
    /// The state invariant: the cursor and every recorded range lie within
    /// the buffer; the recorded ranges do not overlap and come in scan
    /// order; and until the scanner is exhausted they all lie at or before
    /// the cursor.
    pub open spec fn wf(self) -> bool {
        &&& self.bytes.len() <= usize::MAX
        &&& 0 <= self.position <= self.bytes.len()
        &&& forall|k: int|
            0 <= k < self.seen.len() ==> ((#[trigger] self.seen[k]).0 <= self.seen[k].1
                && self.seen[k].1 <= self.bytes.len())
        &&& forall|k: int|
            0 <= k && k + 1 < self.seen.len() ==> (#[trigger] self.seen[k]).1 <= self.seen[k
                + 1].0
        &&& (!self.exhausted ==> forall|k: int|
            0 <= k < self.seen.len() ==> (#[trigger] self.seen[k]).1 <= self.position)
    }
}

/// What one advance yields.
pub ghost enum ScanStep {
    /// End of the sequence: no further attribute in the window.
    End,
    /// One attribute: its name is `bytes[key_start .. key_end)`, its raw
    /// value `bytes[val_start .. val_end)`.
    Item { key_start: int, key_end: int, val_start: int, val_end: int },
    /// A malformed list; the scanner is exhausted from here on.
    Fail(AttrError),
}

/// One advance: the state after it and what it yields.
pub ghost struct StepResult {
    /// The scanner's state after the advance.
    pub state: ScanState,
    /// What the advance yields.
    pub out: ScanStep,
}

/// End of the sequence reached mid-scan: the cursor moves to the buffer's
/// end.
pub open spec fn ended(st: ScanState) -> StepResult {
    StepResult {
        state: ScanState { position: st.bytes.len() as int, ..st },
        out: ScanStep::End,
    }
}

/// An error: the scanner becomes exhausted, the cursor is frozen.
pub open spec fn failed(st: ScanState, e: AttrError) -> StepResult {
    StepResult { state: ScanState { exhausted: true, ..st }, out: ScanStep::Fail(e) }
}

/// The start of the first recorded range whose bytes equal
/// `bytes[ks .. ke)`, if any.
pub open spec fn first_dup(s: Seq<u8>, seen: Seq<(usize, usize)>, ks: int, ke: int) -> Option<
    usize,
>
    decreases seen.len(),
{
    if seen.len() == 0 {
        None
    } else if s.subrange(seen[0].0 as int, seen[0].1 as int) == s.subrange(ks, ke) {
        Some(seen[0].0)
    } else {
        first_dup(s, seen.drop_first(), ks, ke)
    }
}

/// A recorded range with equal bytes, preceded only by ranges with
/// different bytes, is the first duplicate.
pub proof fn lemma_first_dup_found(s: Seq<u8>, seen: Seq<(usize, usize)>, ks: int, ke: int, i: int)
    requires
        0 <= i < seen.len(),
        s.subrange(seen[i].0 as int, seen[i].1 as int) == s.subrange(ks, ke),
        forall|k: int|
            0 <= k < i ==> s.subrange((#[trigger] seen[k]).0 as int, seen[k].1 as int)
                != s.subrange(ks, ke),
    ensures
        first_dup(s, seen, ks, ke) == Some(seen[i].0),
    decreases i,
{
    if i > 0 {
        assert(seen.drop_first()[i - 1] == seen[i]);
        assert forall|k: int|
            0 <= k < i - 1 implies s.subrange(
            (#[trigger] seen.drop_first()[k]).0 as int,
            seen.drop_first()[k].1 as int,
        ) != s.subrange(ks, ke) by {
            assert(seen.drop_first()[k] == seen[k + 1]);
        }
        lemma_first_dup_found(s, seen.drop_first(), ks, ke, i - 1);
    }
}

/// When every recorded range holds different bytes, there is no
/// duplicate.
pub proof fn lemma_first_dup_none(s: Seq<u8>, seen: Seq<(usize, usize)>, ks: int, ke: int)
    requires
        forall|k: int|
            0 <= k < seen.len() ==> s.subrange((#[trigger] seen[k]).0 as int, seen[k].1 as int)
                != s.subrange(ks, ke),
    ensures
        first_dup(s, seen, ks, ke) == None::<usize>,
    decreases seen.len(),
{
    if seen.len() > 0 {
        assert forall|k: int|
            0 <= k < seen.drop_first().len() implies s.subrange(
            (#[trigger] seen.drop_first()[k]).0 as int,
            seen.drop_first()[k].1 as int,
        ) != s.subrange(ks, ke) by {
            assert(seen.drop_first()[k] == seen[k + 1]);
        }
        lemma_first_dup_none(s, seen.drop_first(), ks, ke);
    }
}

/// The advance once a name `bytes[ks .. ke)` is delimited: the name
/// checks, when enforcement is on.
pub open spec fn scan_checked(st: ScanState, ks: int, ke: int) -> StepResult {
    if st.checks {
        match first_where(st.bytes, ks, ke, Pred::QuoteAny) {
            Some(q) => failed(st, AttrError::NameContainsQuote(q as usize)),
            None => match first_dup(st.bytes, st.seen, ks, ke) {
                Some(fs) => failed(st, AttrError::DuplicateAttributeName(ks as usize, fs)),
                None => scan_eq(
                    ScanState { seen: st.seen.push((ks as usize, ke as usize)), ..st },
                    ks,
                    ke,
                ),
            },
        }
    } else {
        scan_eq(st, ks, ke)
    }
}

/// The advance from a checked name on: find `=`, demand only whitespace
/// before it when enforcement is on.
pub open spec fn scan_eq(st: ScanState, ks: int, ke: int) -> StepResult {
    let s = st.bytes;
    let len = s.len() as int;
    match first_byte(s, ke, len - 1, crate::ascii::B_EQ) {
        None => ended(st),
        Some(e) => {
            if st.checks && first_where(s, ke, e, Pred::NonWs) is Some {
                failed(
                    st,
                    AttrError::MissingEqualsAfterName(
                        first_where(s, ke, e, Pred::NonWs)->Some_0 as usize,
                    ),
                )
            } else {
                scan_value(st, ks, ke, e)
            }
        },
    }
}

/// The advance from `=` on: the opening quote, then the matching closing
/// quote, searched to the buffer's true end.
pub open spec fn scan_value(st: ScanState, ks: int, ke: int, e: int) -> StepResult {
    let s = st.bytes;
    let len = s.len() as int;
    match first_where(s, e + 1, len - 1, Pred::NonWs) {
        None => ended(st),
        Some(q) => {
            if is_quote(s[q]) {
                match first_byte(s, q + 1, len, s[q]) {
                    None => ended(st),
                    Some(ve) => StepResult {
                        state: ScanState { position: ve + 1, ..st },
                        out: ScanStep::Item {
                            key_start: ks,
                            key_end: ke,
                            val_start: q + 1,
                            val_end: ve,
                        },
                    },
                }
            } else {
                failed(st, AttrError::UnquotedValue(q as usize))
            }
        },
    }
}

/// One advance of the scanner: skip to whitespace and past it to the
/// name, delimit the name, then hand over to the name and value stages.
pub open spec fn scan(st: ScanState) -> StepResult {
    let s = st.bytes;
    let len = s.len() as int;
    let p = st.position;
    if st.exhausted || len <= p {
        StepResult { state: st, out: ScanStep::End }
    } else {
        match first_where(s, p, len - 1, Pred::Ws) {
            None => ended(st),
            Some(w) => match first_where(s, w + 1, len - 1, Pred::NonWs) {
                None => ended(st),
                Some(ks) => match first_where(s, ks + 1, len - 1, Pred::KeyEnd) {
                    None => ended(st),
                    Some(ke) => scan_checked(st, ks, ke),
                },
            },
        }
    }
}

/// Law: the scanner is sticky. Once an advance yields the end of the
/// sequence or an error, the next advance yields the end of the sequence
/// again and leaves the state unchanged — so every later one does too.
pub proof fn lemma_terminal_sticky(st: ScanState)
    requires
        st.wf(),
    ensures
        scan(st).out is End ==> scan(scan(st).state) == (StepResult {
            state: scan(st).state,
            out: ScanStep::End,
        }),
        scan(st).out is Fail ==> scan(scan(st).state) == (StepResult {
            state: scan(st).state,
            out: ScanStep::End,
        }),
{
    let next = scan(st).state;
    if scan(st).out is End {
        assert(next.exhausted || next.bytes.len() <= next.position);
    }
    if scan(st).out is Fail {
        assert(next.exhausted);
    }
}

/// Law: an advance that yields an attribute places its key strictly after
/// the old cursor, the key before the value, and the value's end before
/// the new cursor, which stays within the buffer; and the cursor never
/// moves backwards. The key and value ranges of successive attributes of
/// one scanner therefore never overlap, and all fall within the scanned
/// region.
pub proof fn lemma_item_ranges(st: ScanState)
    requires
        st.wf(),
    ensures
        scan(st).state.wf(),
        scan(st).state.bytes == st.bytes,
        st.position <= scan(st).state.position,
        (scan(st).out matches ScanStep::Item { key_start, key_end, val_start, val_end } ==> {
            &&& st.position < key_start
            &&& key_start < key_end
            &&& key_end < val_start
            &&& val_start <= val_end
            &&& val_end < st.bytes.len()
            &&& scan(st).state.position == val_end + 1
        }),
{
    let s = st.bytes;
    let len = s.len() as int;
    let p = st.position;
    if !(st.exhausted || len <= p) {
        let r1 = first_where(s, p, len - 1, Pred::Ws);
        if r1 is Some {
            lemma_first_where_some(s, p, len - 1, Pred::Ws);
            let w = r1->Some_0;
            let r2 = first_where(s, w + 1, len - 1, Pred::NonWs);
            if r2 is Some {
                lemma_first_where_some(s, w + 1, len - 1, Pred::NonWs);
                let ks = r2->Some_0;
                let r3 = first_where(s, ks + 1, len - 1, Pred::KeyEnd);
                if r3 is Some {
                    lemma_first_where_some(s, ks + 1, len - 1, Pred::KeyEnd);
                    let ke = r3->Some_0;
                    if st.checks {
                        let st1 = ScanState {
                            seen: st.seen.push((ks as usize, ke as usize)),
                            ..st
                        };
                        assert forall|k: int| 0 <= k < st1.seen.len() implies ((#[trigger] st1
                            .seen[k]).0 <= st1.seen[k].1 && st1.seen[k].1
                            <= st1.bytes.len()) by {
                            if k < st.seen.len() {
                                assert(st1.seen[k] == st.seen[k]);
                            } else {
                                assert(st1.seen[k] == (ks as usize, ke as usize));
                            }
                        }
                        assert forall|k: int| 0 <= k && k + 1 < st1.seen.len() implies (
                        #[trigger] st1.seen[k]).1 <= st1.seen[k + 1].0 by {
                            assert(st1.seen[k] == st.seen[k]);
                            if k + 1 < st.seen.len() {
                                assert(st1.seen[k + 1] == st.seen[k + 1]);
                            } else {
                                assert(st1.seen[k + 1] == (ks as usize, ke as usize));
                                assert(st.seen[k].1 <= st.position);
                            }
                        }
                        assert forall|k: int| 0 <= k < st1.seen.len() implies (#[trigger] st1
                            .seen[k]).1 <= ke by {
                            if k < st.seen.len() {
                                assert(st1.seen[k] == st.seen[k]);
                            } else {
                                assert(st1.seen[k] == (ks as usize, ke as usize));
                            }
                        }
                    }
                    let r4 = first_byte(s, ke, len - 1, crate::ascii::B_EQ);
                    if r4 is Some {
                        lemma_first_byte_some(s, ke, len - 1, crate::ascii::B_EQ);
                        let e = r4->Some_0;
                        let r5 = first_where(s, e + 1, len - 1, Pred::NonWs);
                        if r5 is Some {
                            lemma_first_where_some(s, e + 1, len - 1, Pred::NonWs);
                            let q = r5->Some_0;
                            if is_quote(s[q]) {
                                let r6 = first_byte(s, q + 1, len, s[q]);
                                if r6 is Some {
                                    lemma_first_byte_some(s, q + 1, len, s[q]);
                                }
                            }
                        }
                    }
                }
            }
        }
    }
}

/// Law: when two successive advances both yield an attribute, the whole
/// of the first attribute lies strictly before the whole of the second:
/// their byte ranges never overlap.
pub proof fn lemma_successive_items_disjoint(st: ScanState)
    requires
        st.wf(),
    ensures
        scan(st).out matches ScanStep::Item { val_end, .. } ==> (scan(scan(st).state).out matches
            ScanStep::Item { key_start, .. } ==> val_end < key_start),
{
    lemma_item_ranges(st);
    lemma_item_ranges(scan(st).state);
}

} // verus!
