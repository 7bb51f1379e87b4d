//! Byte searches over the scanned buffer: first-match scans for the
//! predicates the tag grammar needs, and a single-byte search that goes
//! through `memchr`.

use vstd::prelude::*;

use crate::ascii::{B_CR, B_DQUOTE, B_EQ, B_LF, B_SPACE, B_SQUOTE, B_TAB};

verus! {

/// XML whitespace: space, carriage return, line feed, tab.
pub open spec fn is_ws(b: u8) -> bool {
    b == B_SPACE || b == B_CR || b == B_LF || b == B_TAB
}

/// A quote byte, either style.
pub open spec fn is_quote(b: u8) -> bool {
    b == B_SQUOTE || b == B_DQUOTE
}

/// The predicates the scanner looks for.
#[derive(Clone, Copy)]
pub enum Pred {
    /// A whitespace byte.
    Ws,
    /// A non-whitespace byte.
    NonWs,
    /// A byte that ends an attribute name: `=` or whitespace.
    KeyEnd,
    /// A quote byte of either style.
    QuoteAny,
}

/// What each `Pred` means of a byte.
pub open spec fn pred_holds(p: Pred, b: u8) -> bool {
    match p {
        Pred::Ws => is_ws(b),
        Pred::NonWs => !is_ws(b),
        Pred::KeyEnd => b == B_EQ || is_ws(b),
        Pred::QuoteAny => is_quote(b),
    }
}

/// Index of the first byte in `[from, to)` of `s` satisfying `p`, if any.
pub open spec fn first_where(s: Seq<u8>, from: int, to: int, p: Pred) -> Option<int>
    recommends
        0 <= from,
        to <= s.len(),
    decreases to - from,
{
    if from >= to {
        None
    } else if pred_holds(p, s[from]) {
        Some(from)
    } else {
        first_where(s, from + 1, to, p)
    }
}

/// Index of the first occurrence of the byte `q` in `[from, to)` of `s`.
pub open spec fn first_byte(s: Seq<u8>, from: int, to: int, q: u8) -> Option<int>
    recommends
        0 <= from,
        to <= s.len(),
    decreases to - from,
{
    if from >= to {
        None
    } else if s[from] == q {
        Some(from)
    } else {
        first_byte(s, from + 1, to, q)
    }
}

/// A byte satisfying `p`, with none before it, is the first match.
pub proof fn lemma_first_where_found(s: Seq<u8>, from: int, to: int, p: Pred, i: int)
    requires
        0 <= from <= i < to <= s.len(),
        pred_holds(p, s[i]),
        forall|j: int| from <= j < i ==> !pred_holds(p, s[j]),
    ensures
        first_where(s, from, to, p) == Some(i),
    decreases i - from,
{
    if from < i {
        lemma_first_where_found(s, from + 1, to, p, i);
    }
}

/// A window with no byte satisfying `p` has no first match.
pub proof fn lemma_first_where_none(s: Seq<u8>, from: int, to: int, p: Pred)
    requires
        0 <= from,
        to <= s.len(),
        forall|j: int| from <= j < to ==> !pred_holds(p, s[j]),
    ensures
        first_where(s, from, to, p) == None::<int>,
    decreases to - from,
{
    if from < to {
        lemma_first_where_none(s, from + 1, to, p);
    }
}

/// Inversion: what a successful `first_where` says of the bytes.
pub proof fn lemma_first_where_some(s: Seq<u8>, from: int, to: int, p: Pred)
    requires
        0 <= from,
        to <= s.len(),
        first_where(s, from, to, p) is Some,
    ensures
        from <= first_where(s, from, to, p)->Some_0 < to,
        pred_holds(p, s[first_where(s, from, to, p)->Some_0]),
        forall|j: int|
            from <= j < first_where(s, from, to, p)->Some_0 ==> !pred_holds(p, s[j]),
    decreases to - from,
{
    if from < to && !pred_holds(p, s[from]) {
        lemma_first_where_some(s, from + 1, to, p);
    }
}

/// An occurrence of `q`, with none before it, is the first one.
pub proof fn lemma_first_byte_found(s: Seq<u8>, from: int, to: int, q: u8, i: int)
    requires
        0 <= from <= i < to <= s.len(),
        s[i] == q,
        forall|j: int| from <= j < i ==> s[j] != q,
    ensures
        first_byte(s, from, to, q) == Some(i),
    decreases i - from,
{
    if from < i {
        lemma_first_byte_found(s, from + 1, to, q, i);
    }
}

/// A window without `q` has no first occurrence.
pub proof fn lemma_first_byte_none(s: Seq<u8>, from: int, to: int, q: u8)
    requires
        0 <= from,
        to <= s.len(),
        forall|j: int| from <= j < to ==> s[j] != q,
    ensures
        first_byte(s, from, to, q) == None::<int>,
    decreases to - from,
{
    if from < to {
        lemma_first_byte_none(s, from + 1, to, q);
    }
}

/// Inversion: what a successful `first_byte` says of the bytes.
pub proof fn lemma_first_byte_some(s: Seq<u8>, from: int, to: int, q: u8)
    requires
        0 <= from,
        to <= s.len(),
        first_byte(s, from, to, q) is Some,
    ensures
        from <= first_byte(s, from, to, q)->Some_0 < to,
        s[first_byte(s, from, to, q)->Some_0] == q,
        forall|j: int| from <= j < first_byte(s, from, to, q)->Some_0 ==> s[j] != q,
    decreases to - from,
{
    if from < to && s[from] != q {
        lemma_first_byte_some(s, from + 1, to, q);
    }
}

/// Whether `b` is XML whitespace.
pub fn is_whitespace(b: u8) -> (r: bool)
    ensures
        r == is_ws(b),
{
    b == B_SPACE || b == B_CR || b == B_LF || b == B_TAB
}

/// Whether `b` satisfies `p`.
fn eval_pred(p: Pred, b: u8) -> (r: bool)
    ensures
        r == pred_holds(p, b),
{
    match p {
        Pred::Ws => is_whitespace(b),
        Pred::NonWs => !is_whitespace(b),
        Pred::KeyEnd => b == B_EQ || is_whitespace(b),
        Pred::QuoteAny => b == B_SQUOTE || b == B_DQUOTE,
    }
}

/// First index in `[from, to)` of `s` whose byte satisfies `p`.
pub fn find_first(s: &[u8], from: usize, to: usize, p: Pred) -> (r: Option<usize>)
    requires
        from <= to <= s@.len(),
    ensures
        match r {
            Some(i) => from <= i < to && first_where(s@, from as int, to as int, p) == Some(
                i as int,
            ),
            None => first_where(s@, from as int, to as int, p) == None::<int>,
        },
{
    let mut i: usize = from;
    while i < to
        invariant
            from <= i <= to <= s@.len(),
            forall|j: int| from <= j < i ==> !pred_holds(p, s@[j]),
        decreases to - i,
    {
        if eval_pred(p, s[i]) {
            proof {
                lemma_first_where_found(s@, from as int, to as int, p, i as int);
            }
            return Some(i);
        }
        i = i + 1;
    }
    proof {
        lemma_first_where_none(s@, from as int, to as int, p);
    }
    None
}

/// Relies on `memchr::memchr`: it returns the index, within the given
/// slice, of the first occurrence of the needle byte, or `None` when the
/// needle does not occur. The wrapper searches the window `[from, to)` of
/// `s` and reports the index relative to `from`.
#[verifier::external_body]
fn memchr_in(s: &[u8], from: usize, to: usize, q: u8) -> (r: Option<usize>)
    requires
        from <= to <= s@.len(),
    ensures
        (match r {
            Some(i) => {
                &&& from + i < to
                &&& s@[from + i] == q
                &&& forall|j: int| from <= j < from + i ==> s@[j] != q
            },
            None => forall|j: int| from <= j < to ==> s@[j] != q,
        }),
{
    memchr::memchr(q, &s[from..to])
}

/// First index in `[from, to)` of `s` holding the byte `q`, found through
/// `memchr`.
pub fn find_byte(s: &[u8], from: usize, to: usize, q: u8) -> (r: Option<usize>)
    requires
        from <= to <= s@.len(),
    ensures
        match r {
            Some(i) => from <= i < to && first_byte(s@, from as int, to as int, q) == Some(
                i as int,
            ),
            None => first_byte(s@, from as int, to as int, q) == None::<int> && (forall|j: int|
                from <= j < to ==> s@[j] != q),
        },
{
    match memchr_in(s, from, to, q) {
        Some(i) => {
            let abs = from + i;
            proof {
                lemma_first_byte_found(s@, from as int, to as int, q, abs as int);
            }
            Some(abs)
        },
        None => {
            proof {
                lemma_first_byte_none(s@, from as int, to as int, q);
            }
            None
        },
    }
}

/// Whether two byte slices hold the same bytes.
pub fn slices_equal(x: &[u8], y: &[u8]) -> (r: bool)
    ensures
        r == (x@ == y@),
{
    let n = x.len();
    if n != y.len() {
        proof {
            assert(x@.len() != y@.len());
        }
        return false;
    }
    let mut i: usize = 0;
    while i < n
        invariant
            i <= n,
            n == x@.len(),
            n == y@.len(),
            forall|j: int| 0 <= j < i ==> x@[j] == y@[j],
        decreases n - i,
    {
        if x[i] != y[i] {
            return false;
        }
        i = i + 1;
    }
    proof {
        assert(x@ =~= y@);
    }
    true
}

/// Whether the two windows `[a, b)` and `[c, d)` of `s` hold the same bytes.
pub fn range_matches(s: &[u8], a: usize, b: usize, c: usize, d: usize) -> (r: bool)
    requires
        a <= b <= s@.len(),
        c <= d <= s@.len(),
    ensures
        r == (s@.subrange(a as int, b as int) == s@.subrange(c as int, d as int)),
{
    let ghost left = s@.subrange(a as int, b as int);
    let ghost right = s@.subrange(c as int, d as int);
    if b - a != d - c {
        proof {
            assert(left.len() != right.len());
        }
        return false;
    }
    let n = b - a;
    let mut i: usize = 0;
    while i < n
        invariant
            a + n <= s@.len(),
            c + n <= s@.len(),
            b == a + n,
            d == c + n,
            i <= n,
            left == s@.subrange(a as int, b as int),
            right == s@.subrange(c as int, d as int),
            forall|j: int| 0 <= j < i ==> left[j] == right[j],
        decreases n - i,
    {
        if s[a + i] != s[c + i] {
            proof {
                assert(left[i as int] != right[i as int]);
            }
            return false;
        }
        i = i + 1;
    }
    proof {
        assert(left =~= right);
    }
    true
}

} // verus!
