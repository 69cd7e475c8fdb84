//! The library-wide laws, stated and proved over the model.
//!
//! Parsing fails on every unclosed group and on every stray close marker;
//! parsing is deterministic, so re-deriving a matcher's tokens from its
//! stored text gives the tokens back; and matching is prefix-bounded: the
//! matched substrings of a result are, in order, a prefix of the
//! candidate, so their total byte length never exceeds the candidate's.

use vstd::prelude::*;
use vstd::utf8::encode_scalar;
use vstd::utf8::encode_utf8;

use crate::matcher::tokens_view;
use crate::matcher::Matcher;
use crate::model::find_char;
use crate::model::find_special;
use crate::model::lemma_find_char_props;
use crate::model::lemma_find_special_props;
use crate::model::lemma_first_alt_prefix;
use crate::model::matched_chars;
use crate::model::spec_match;
use crate::model::spec_parse;
use crate::model::token_consumes;
use crate::model::TokenModel;

verus! {

/// A pattern containing a `(` with no `)` anywhere after it fails to
/// parse, whatever else the pattern holds.
pub proof fn lemma_unclosed_group_fails(s: Seq<char>, k: int)
    requires
        0 <= k < s.len(),
        s[k] == '(',
        forall|j: int| k < j < s.len() ==> s[j] != ')',
    ensures
        spec_parse(s) is None,
    decreases s.len(),
{
    lemma_find_char_props(s, ')');
    lemma_find_special_props(s);
    if s[0] == '.' {
        assert(s.skip(1)[k - 1] == s[k]);
        assert forall|j: int| k - 1 < j < s.skip(1).len() implies s.skip(1)[j] != ')' by {
            assert(s.skip(1)[j] == s[j + 1]);
        }
        lemma_unclosed_group_fails(s.skip(1), k - 1);
    } else if s[0] == '(' {
        let j = find_char(s, ')');
        if j < s.len() {
            assert(s[j] == ')');
            assert(j < k);
            let s2 = s.skip(j + 1);
            assert(s2[k - j - 1] == s[k]);
            assert forall|j2: int| k - j - 1 < j2 < s2.len() implies s2[j2] != ')' by {
                assert(s2[j2] == s[j2 + j + 1]);
            }
            lemma_unclosed_group_fails(s2, k - j - 1);
        }
    } else if s[0] == ')' {
    } else {
        let e = find_special(s);
        assert(k >= e);
        let s2 = s.skip(e);
        assert(s2[k - e] == s[k]);
        assert forall|j2: int| k - e < j2 < s2.len() implies s2[j2] != ')' by {
            assert(s2[j2] == s[j2 + e]);
        }
        lemma_unclosed_group_fails(s2, k - e);
    }
}

/// A pattern containing a `)` with no unclosed `(` before it fails to
/// parse: here "no unclosed `(`" says that every `(` standing before that
/// `)` is itself closed by a `)` strictly in between.
pub proof fn lemma_stray_close_fails(s: Seq<char>, k: int)
    requires
        0 <= k < s.len(),
        s[k] == ')',
        forall|i: int|
            0 <= i < k && s[i] == '(' ==> exists|j: int| i < j < k && #[trigger] s[j] == ')',
    ensures
        spec_parse(s) is None,
    decreases s.len(),
{
    lemma_find_char_props(s, ')');
    lemma_find_special_props(s);
    if s[0] == '.' {
        let s2 = s.skip(1);
        assert(s2[k - 1] == s[k]);
        assert forall|i: int| 0 <= i < k - 1 && s2[i] == '(' implies exists|j: int|
            i < j < k - 1 && #[trigger] s2[j] == ')' by {
            assert(s[i + 1] == s2[i]);
            let j = choose|j: int| i + 1 < j < k && s[j] == ')';
            assert(s2[j - 1] == s[j]);
            assert(i < j - 1 < k - 1 && s2[j - 1] == ')');
        }
        lemma_stray_close_fails(s2, k - 1);
    } else if s[0] == '(' {
        let j0 = find_char(s, ')');
        assert(j0 <= k);
        assert(k >= 1);
        if j0 == k {
            assert(s[0] == '(' && 0 < k);
            let j = choose|j: int| 0 < j < k && s[j] == ')';
            assert(false);
        } else {
            assert(j0 < s.len());
            let s2 = s.skip(j0 + 1);
            let k2 = k - j0 - 1;
            assert(s2[k2] == s[k]);
            assert forall|i: int| 0 <= i < k2 && s2[i] == '(' implies exists|j: int|
                i < j < k2 && #[trigger] s2[j] == ')' by {
                assert(s[i + j0 + 1] == s2[i]);
                let j = choose|j: int| i + j0 + 1 < j < k && s[j] == ')';
                assert(s2[j - j0 - 1] == s[j]);
                assert(i < j - j0 - 1 < k2 && s2[j - j0 - 1] == ')');
            }
            lemma_stray_close_fails(s2, k2);
        }
    } else if s[0] == ')' {
    } else {
        let e = find_special(s);
        assert(k >= e);
        assert(e >= 1);
        let s2 = s.skip(e);
        let k2 = k - e;
        assert(s2[k2] == s[k]);
        assert forall|i: int| 0 <= i < k2 && s2[i] == '(' implies exists|j: int|
            i < j < k2 && #[trigger] s2[j] == ')' by {
            assert(s[i + e] == s2[i]);
            let j = choose|j: int| i + e < j < k && s[j] == ')';
            assert(s2[j - e] == s[j]);
            assert(i < j - e < k2 && s2[j - e] == ')');
        }
        lemma_stray_close_fails(s2, k2);
    }
}

/// Parsing is deterministic: two well-formed matchers whose stored
/// pattern texts are equal carry identical token sequences, so
/// re-deriving the tokens from the stored text and re-parsing gives the
/// same tokens back.
pub proof fn lemma_reparse_identical<'a, 'b>(m1: Matcher<'a>, m2: Matcher<'b>)
    requires
        m1.wf(),
        m2.wf(),
        m1.text@ == m2.text@,
    ensures
        tokens_view(m1.tokens@) == tokens_view(m2.tokens@),
{
}

/// The total byte length, under UTF-8 encoding, of the matched substrings
/// of a result.
pub open spec fn total_matched_bytes(ms: Seq<(TokenModel, Seq<char>)>) -> int
    decreases ms.len(),
{
    if ms.len() == 0 {
        0
    } else {
        encode_utf8(ms[0].1).len() + total_matched_bytes(ms.drop_first())
    }
}

/// UTF-8 encoding distributes over concatenation.
proof fn lemma_encode_utf8_concat(a: Seq<char>, b: Seq<char>)
    ensures
        encode_utf8(a + b) == encode_utf8(a) + encode_utf8(b),
    decreases a.len(),
{
    if a.len() == 0 {
        assert(a + b =~= b);
        assert(encode_utf8(a) =~= Seq::<u8>::empty());
        assert(Seq::<u8>::empty() + encode_utf8(b) =~= encode_utf8(b));
    } else {
        assert((a + b).drop_first() =~= a.drop_first() + b);
        assert((a + b)[0] == a[0]);
        lemma_encode_utf8_concat(a.drop_first(), b);
        assert(encode_scalar(a[0] as u32) + (encode_utf8(a.drop_first()) + encode_utf8(b)) =~= (
        encode_scalar(a[0] as u32) + encode_utf8(a.drop_first())) + encode_utf8(b));
    }
}

/// Summing the byte lengths pair by pair is encoding the concatenation.
proof fn lemma_total_bytes_is_encoded_concat(ms: Seq<(TokenModel, Seq<char>)>)
    ensures
        total_matched_bytes(ms) == encode_utf8(matched_chars(ms)).len(),
    decreases ms.len(),
{
    if ms.len() == 0 {
        assert(matched_chars(ms) =~= Seq::<char>::empty());
    } else {
        lemma_total_bytes_is_encoded_concat(ms.drop_first());
        lemma_encode_utf8_concat(ms[0].1, matched_chars(ms.drop_first()));
    }
}

/// The matched substrings of a result are, in order, a prefix of the
/// candidate.
proof fn lemma_match_prefix(toks: Seq<TokenModel>, s: Seq<char>)
    ensures
        matched_chars(spec_match(toks, s)).is_prefix_of(s),
    decreases toks.len(),
{
    if toks.len() == 0 {
        assert(matched_chars(spec_match(toks, s)) =~= Seq::<char>::empty());
        assert(Seq::<char>::empty() =~= s.subrange(0, 0));
    } else {
        match token_consumes(toks[0], s) {
            Some(m) => {
                match toks[0] {
                    TokenModel::Literal { chars } => {
                        assert(m.is_prefix_of(s));
                    },
                    TokenModel::Alternatives { alts } => {
                        lemma_first_alt_prefix(alts, s);
                        assert(m.is_prefix_of(s));
                    },
                    TokenModel::Wildcard => {
                        assert(m =~= s.take(1));
                        assert(s.take(1) =~= s.subrange(0, 1));
                        assert(m.is_prefix_of(s));
                    },
                }
                let l = m.len() as int;
                let rest = spec_match(toks.drop_first(), s.skip(l));
                lemma_match_prefix(toks.drop_first(), s.skip(l));
                let mc = matched_chars(rest);
                assert((seq![(toks[0], m)] + rest).drop_first() =~= rest);
                assert(matched_chars(spec_match(toks, s)) == m + mc);
                assert(mc.is_prefix_of(s.skip(l)));
                assert(l + mc.len() <= s.len());
                assert forall|x: int| 0 <= x < l + mc.len() implies (m + mc)[x] == s[x] by {
                    if x < l {
                        assert(m[x] == s.subrange(0, l)[x]);
                    } else {
                        assert(mc[x - l] == s.skip(l).subrange(0, mc.len() as int)[x - l]);
                        assert(s.skip(l)[x - l] == s[x]);
                    }
                }
                assert((m + mc) =~= s.subrange(0, l + mc.len()));
            },
            None => {
                assert(matched_chars(spec_match(toks, s)) =~= Seq::<char>::empty());
                assert(Seq::<char>::empty() =~= s.subrange(0, 0));
            },
        }
    }
}

/// Matching is prefix-bounded: the matched substrings of a result,
/// concatenated in order, are a prefix of the candidate, and their total
/// byte length never exceeds the candidate's byte length (`encode_utf8`
/// of a text's characters is exactly its bytes).
pub proof fn lemma_match_prefix_bounded(toks: Seq<TokenModel>, s: Seq<char>)
    ensures
        matched_chars(spec_match(toks, s)).is_prefix_of(s),
        total_matched_bytes(spec_match(toks, s)) <= encode_utf8(s).len(),
{
    lemma_match_prefix(toks, s);
    let ms = spec_match(toks, s);
    let mc = matched_chars(ms);
    lemma_total_bytes_is_encoded_concat(ms);
    assert(s =~= mc + s.skip(mc.len() as int));
    lemma_encode_utf8_concat(mc, s.skip(mc.len() as int));
}

} // verus!
