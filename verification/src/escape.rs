//! Entity escaping and unescaping for attribute values.
//!
//! `escape` rewrites the five XML special bytes as named entity
//! references; `unescape` resolves those references back. Resolution of
//! an `&` that does not open one of the five references is a fault, at
//! the offset of that `&`. The two transforms are inverse of one another,
//! which `lemma_unescape_escape` states and proves.

use vstd::prelude::*;

use crate::ascii::{B_A, B_AMP, B_DQUOTE, B_G, B_GT, B_L, B_LT, B_M, B_O, B_P, B_Q,
    B_S, B_SEMI, B_SQUOTE, B_T, B_U};

verus! {

/// Whether `escape` rewrites the byte.
pub open spec fn needs_escaping(b: u8) -> bool {
    b == B_LT || b == B_GT || b == B_AMP || b == B_SQUOTE || b == B_DQUOTE
}

/// The bytes `escape` writes for one input byte.
pub open spec fn escape_byte(b: u8) -> Seq<u8> {
    if b == B_LT {
        seq![B_AMP, B_L, B_T, B_SEMI]
    } else if b == B_GT {
        seq![B_AMP, B_G, B_T, B_SEMI]
    } else if b == B_AMP {
        seq![B_AMP, B_A, B_M, B_P, B_SEMI]
    } else if b == B_SQUOTE {
        seq![B_AMP, B_A, B_P, B_O, B_S, B_SEMI]
    } else if b == B_DQUOTE {
        seq![B_AMP, B_Q, B_U, B_O, B_T, B_SEMI]
    } else {
        seq![b]
    }
}

/// The escaped form of a byte sequence.
pub open spec fn escaped(s: Seq<u8>) -> Seq<u8>
    decreases s.len(),
{
    if s.len() == 0 {
        Seq::empty()
    } else {
        escape_byte(s[0]) + escaped(s.drop_first())
    }
}

/// `&lt;` opens at offset `i` of `s`.
pub open spec fn entity_lt(s: Seq<u8>, i: int) -> bool {
    i + 4 <= s.len() && s[i + 1] == B_L && s[i + 2] == B_T && s[i + 3] == B_SEMI
}

/// `&gt;` opens at offset `i` of `s`.
pub open spec fn entity_gt(s: Seq<u8>, i: int) -> bool {
    i + 4 <= s.len() && s[i + 1] == B_G && s[i + 2] == B_T && s[i + 3] == B_SEMI
}

/// `&amp;` opens at offset `i` of `s`.
pub open spec fn entity_amp(s: Seq<u8>, i: int) -> bool {
    i + 5 <= s.len() && s[i + 1] == B_A && s[i + 2] == B_M && s[i + 3] == B_P && s[i + 4]
        == B_SEMI
}

/// `&apos;` opens at offset `i` of `s`.
pub open spec fn entity_apos(s: Seq<u8>, i: int) -> bool {
    i + 6 <= s.len() && s[i + 1] == B_A && s[i + 2] == B_P && s[i + 3] == B_O && s[i + 4]
        == B_S && s[i + 5] == B_SEMI
}

/// `&quot;` opens at offset `i` of `s`.
pub open spec fn entity_quot(s: Seq<u8>, i: int) -> bool {
    i + 6 <= s.len() && s[i + 1] == B_Q && s[i + 2] == B_U && s[i + 3] == B_O && s[i + 4]
        == B_T && s[i + 5] == B_SEMI
}

/// Prefix one resolved byte onto the rest of a resolution.
pub open spec fn prepend(b: u8, r: Result<Seq<u8>, int>) -> Result<Seq<u8>, int> {
    match r {
        Ok(t) => Ok(seq![b] + t),
        Err(e) => Err(e),
    }
}

/// The unescaped form of `s` from offset `i` on: the resolved bytes, or
/// the offset of the first `&` that opens no known entity reference.
pub open spec fn unescaped_from(s: Seq<u8>, i: int) -> Result<Seq<u8>, int>
    recommends
        0 <= i <= s.len(),
    decreases s.len() - i,
{
    if i < 0 || i >= s.len() {
        Ok(Seq::empty())
    } else if s[i] != B_AMP {
        prepend(s[i], unescaped_from(s, i + 1))
    } else if entity_lt(s, i) {
        prepend(B_LT, unescaped_from(s, i + 4))
    } else if entity_gt(s, i) {
        prepend(B_GT, unescaped_from(s, i + 4))
    } else if entity_amp(s, i) {
        prepend(B_AMP, unescaped_from(s, i + 5))
    } else if entity_apos(s, i) {
        prepend(B_SQUOTE, unescaped_from(s, i + 6))
    } else if entity_quot(s, i) {
        prepend(B_DQUOTE, unescaped_from(s, i + 6))
    } else {
        Err(i)
    }
}

/// The unescaped form of a whole byte sequence.
pub open spec fn unescaped(s: Seq<u8>) -> Result<Seq<u8>, int> {
    unescaped_from(s, 0)
}

/// A sequence without `&` from offset `i` on resolves to itself.
pub proof fn lemma_unescaped_no_amp(s: Seq<u8>, i: int)
    requires
        0 <= i <= s.len(),
        forall|j: int| i <= j < s.len() ==> s[j] != B_AMP,
    ensures
        unescaped_from(s, i) == Ok::<Seq<u8>, int>(s.subrange(i, s.len() as int)),
    decreases s.len() - i,
{
    if i < s.len() {
        lemma_unescaped_no_amp(s, i + 1);
        assert(seq![s[i]] + s.subrange(i + 1, s.len() as int) =~= s.subrange(
            i,
            s.len() as int,
        ));
    } else {
        assert(s.subrange(i, s.len() as int) =~= Seq::<u8>::empty());
    }
}

/// Escaping one more byte appends its escaped form.
proof fn lemma_escaped_snoc(s: Seq<u8>, b: u8)
    ensures
        escaped(s.push(b)) == escaped(s) + escape_byte(b),
    decreases s.len(),
{
    if s.len() == 0 {
        assert(s.push(b).drop_first() =~= Seq::<u8>::empty());
        assert(s.push(b)[0] == b);
        assert(escaped(s.push(b)) == escape_byte(b) + escaped(s.push(b).drop_first()));
        assert(escape_byte(b) + Seq::<u8>::empty() =~= escape_byte(b));
        assert(escaped(s) + escape_byte(b) =~= escape_byte(b));
    } else {
        lemma_escaped_snoc(s.drop_first(), b);
        assert(s.push(b).drop_first() =~= s.drop_first().push(b));
        assert(s.push(b)[0] == s[0]);
        assert(escape_byte(s[0]) + (escaped(s.drop_first()) + escape_byte(b)) =~= (escape_byte(
            s[0],
        ) + escaped(s.drop_first())) + escape_byte(b));
    }
}

/// Resolution at an offset past a fixed prefix ignores the prefix, up to
/// shifting a fault offset.
proof fn lemma_unescaped_shift(a: Seq<u8>, w: Seq<u8>, k: int)
    requires
        0 <= k <= w.len(),
    ensures
        unescaped_from(a + w, a.len() + k) == (match unescaped_from(w, k) {
            Ok(t) => Ok::<Seq<u8>, int>(t),
            Err(e) => Err::<Seq<u8>, int>(e + a.len()),
        }),
    decreases w.len() - k,
{
    let s = a + w;
    let i = a.len() + k;
    assert(s.len() == a.len() + w.len());
    if k < w.len() {
        assert forall|m: int| 0 <= m && k + m < w.len() implies s[i + m] == #[trigger] w[k
            + m] by {
            assert(s[a.len() as int + (k + m)] == w[k + m]);
        }
        assert(entity_lt(s, i) == entity_lt(w, k));
        assert(entity_gt(s, i) == entity_gt(w, k));
        assert(entity_amp(s, i) == entity_amp(w, k));
        assert(entity_apos(s, i) == entity_apos(w, k));
        assert(entity_quot(s, i) == entity_quot(w, k));
        if w[k] != B_AMP {
            lemma_unescaped_shift(a, w, k + 1);
        } else if entity_lt(w, k) || entity_gt(w, k) {
            lemma_unescaped_shift(a, w, k + 4);
        } else if entity_amp(w, k) {
            lemma_unescaped_shift(a, w, k + 5);
        } else if entity_apos(w, k) || entity_quot(w, k) {
            lemma_unescaped_shift(a, w, k + 6);
        }
    }
}

/// Round-trip law: unescaping an escaped sequence gives the sequence back.
pub proof fn lemma_unescape_escape(s: Seq<u8>)
    ensures
        unescaped(escaped(s)) == Ok::<Seq<u8>, int>(s),
    decreases s.len(),
{
    if s.len() == 0 {
        assert(s =~= Seq::<u8>::empty());
    } else {
        let b = s[0];
        let head = escape_byte(b);
        let tail = escaped(s.drop_first());
        let e = escaped(s);
        assert(e == head + tail);
        lemma_unescape_escape(s.drop_first());
        lemma_unescaped_shift(head, tail, 0);
        assert(unescaped_from(e, head.len() as int) == Ok::<Seq<u8>, int>(s.drop_first()));
        assert forall|m: int| 0 <= m < head.len() implies e[m] == head[m] by {}
        if !needs_escaping(b) {
            assert(e[0] == b && b != B_AMP);
            assert(unescaped_from(e, 0) == prepend(b, unescaped_from(e, 1)));
        } else if b == B_LT {
            assert(e[0] == B_AMP && e[1] == B_L && e[2] == B_T && e[3] == B_SEMI);
            assert(entity_lt(e, 0));
            assert(unescaped_from(e, 0) == prepend(B_LT, unescaped_from(e, 4)));
        } else if b == B_GT {
            assert(e[0] == B_AMP && e[1] == B_G && e[2] == B_T && e[3] == B_SEMI);
            assert(!entity_lt(e, 0) && entity_gt(e, 0));
            assert(unescaped_from(e, 0) == prepend(B_GT, unescaped_from(e, 4)));
        } else if b == B_AMP {
            assert(e[0] == B_AMP && e[1] == B_A && e[2] == B_M && e[3] == B_P && e[4] == B_SEMI);
            assert(!entity_lt(e, 0) && !entity_gt(e, 0) && entity_amp(e, 0));
            assert(unescaped_from(e, 0) == prepend(B_AMP, unescaped_from(e, 5)));
        } else if b == B_SQUOTE {
            assert(e[0] == B_AMP && e[1] == B_A && e[2] == B_P && e[3] == B_O && e[4] == B_S
                && e[5] == B_SEMI);
            assert(!entity_lt(e, 0) && !entity_gt(e, 0) && !entity_amp(e, 0) && entity_apos(e, 0));
            assert(unescaped_from(e, 0) == prepend(B_SQUOTE, unescaped_from(e, 6)));
        } else {
            assert(e[0] == B_AMP && e[1] == B_Q && e[2] == B_U && e[3] == B_O && e[4] == B_T
                && e[5] == B_SEMI);
            assert(!entity_lt(e, 0) && !entity_gt(e, 0) && !entity_amp(e, 0) && !entity_apos(e, 0)
                && entity_quot(e, 0));
            assert(unescaped_from(e, 0) == prepend(B_DQUOTE, unescaped_from(e, 6)));
        }
        assert(seq![b] + s.drop_first() =~= s);
    }
}

/// Law: escaping is injective — by the round-trip law, each escaped form
/// has exactly one source.
pub proof fn lemma_escape_injective(a: Seq<u8>, b: Seq<u8>)
    requires
        escaped(a) == escaped(b),
    ensures
        a == b,
{
    lemma_unescape_escape(a);
    lemma_unescape_escape(b);
}

/// Escape a byte sequence: each special byte becomes its entity reference.
pub fn escape(raw: &[u8]) -> (r: Vec<u8>)
    ensures
        r@ == escaped(raw@),
{
    let mut out: Vec<u8> = Vec::new();
    let n = raw.len();
    let mut i: usize = 0;
    while i < n
        invariant
            i <= n,
            n == raw@.len(),
            out@ == escaped(raw@.subrange(0, i as int)),
        decreases n - i,
    {
        let ghost pre = out@;
        let b = raw[i];
        if b == B_LT {
            out.push(B_AMP);
            out.push(B_L);
            out.push(B_T);
            out.push(B_SEMI);
        } else if b == B_GT {
            out.push(B_AMP);
            out.push(B_G);
            out.push(B_T);
            out.push(B_SEMI);
        } else if b == B_AMP {
            out.push(B_AMP);
            out.push(B_A);
            out.push(B_M);
            out.push(B_P);
            out.push(B_SEMI);
        } else if b == B_SQUOTE {
            out.push(B_AMP);
            out.push(B_A);
            out.push(B_P);
            out.push(B_O);
            out.push(B_S);
            out.push(B_SEMI);
        } else if b == B_DQUOTE {
            out.push(B_AMP);
            out.push(B_Q);
            out.push(B_U);
            out.push(B_O);
            out.push(B_T);
            out.push(B_SEMI);
        } else {
            out.push(b);
        }
        proof {
            assert(out@ =~= pre + escape_byte(raw@[i as int]));
            lemma_escaped_snoc(raw@.subrange(0, i as int), raw@[i as int]);
            assert(raw@.subrange(0, i as int).push(raw@[i as int]) =~= raw@.subrange(
                0,
                i as int + 1,
            ));
        }
        i = i + 1;
    }
    proof {
        assert(raw@.subrange(0, n as int) =~= raw@);
    }
    out
}

/// Unescape a byte sequence: resolve the five entity references, or report
/// the offset of the first `&` that opens none of them.
pub fn unescape(raw: &[u8]) -> (r: Result<Vec<u8>, usize>)
    ensures
        match unescaped(raw@) {
            Ok(u) => r matches Ok(v) && v@ == u,
            Err(e) => r matches Err(k) && k as int == e,
        },
{
    let mut out: Vec<u8> = Vec::new();
    let n = raw.len();
    let mut i: usize = 0;
    while i < n
        invariant
            i <= n,
            n == raw@.len(),
            (match unescaped_from(raw@, i as int) {
                Ok(rest) => unescaped(raw@) == Ok::<Seq<u8>, int>(out@ + rest),
                Err(e) => unescaped(raw@) == Err::<Seq<u8>, int>(e),
            }),
        decreases n - i,
    {
        let ghost pre = out@;
        let b = raw[i];
        let ghost gi = i as int;
        if b != B_AMP {
            out.push(b);
            i = i + 1;
        } else if n - i >= 4 && raw[i + 1] == B_L && raw[i + 2] == B_T && raw[i + 3] == B_SEMI {
            out.push(B_LT);
            i = i + 4;
        } else if n - i >= 4 && raw[i + 1] == B_G && raw[i + 2] == B_T && raw[i + 3] == B_SEMI {
            out.push(B_GT);
            i = i + 4;
        } else if n - i >= 5 && raw[i + 1] == B_A && raw[i + 2] == B_M && raw[i + 3] == B_P
            && raw[i + 4] == B_SEMI {
            out.push(B_AMP);
            i = i + 5;
        } else if n - i >= 6 && raw[i + 1] == B_A && raw[i + 2] == B_P && raw[i + 3] == B_O
            && raw[i + 4] == B_S && raw[i + 5] == B_SEMI {
            out.push(B_SQUOTE);
            i = i + 6;
        } else if n - i >= 6 && raw[i + 1] == B_Q && raw[i + 2] == B_U && raw[i + 3] == B_O
            && raw[i + 4] == B_T && raw[i + 5] == B_SEMI {
            out.push(B_DQUOTE);
            i = i + 6;
        } else {
            proof {
                assert(unescaped_from(raw@, gi) == Err::<Seq<u8>, int>(gi));
            }
            return Err(i);
        }
        proof {
            assert(match unescaped_from(raw@, i as int) {
                Ok(rest) => unescaped_from(raw@, gi) == Ok::<Seq<u8>, int>(
                    seq![out@[pre.len() as int]] + rest,
                ),
                Err(e) => unescaped_from(raw@, gi) == Err::<Seq<u8>, int>(e),
            });
            if unescaped_from(raw@, i as int) is Ok {
                let rest = unescaped_from(raw@, i as int)->Ok_0;
                assert(pre + (seq![out@[pre.len() as int]] + rest) =~= out@ + rest);
            }
        }
    }
    proof {
        assert(out@ + Seq::<u8>::empty() =~= out@);
    }
    Ok(out)
}

} // verus!
