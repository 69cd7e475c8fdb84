//! The mathematical model of patterns and of matching.
//!
//! Pattern texts and candidate texts are modelled as `Seq<char>`.
//! [`spec_parse`] says which token sequence a pattern text denotes, or that
//! it is malformed; [`spec_match`] says which token/substring pairs a match
//! returns. The executable code in `matcher` is proved against these.

use vstd::prelude::*;

verus! {

/// One token of a parsed pattern, at the specification level.
///
/// `Literal` is a run of plain characters that must appear verbatim,
/// `Alternatives` is an ordered set of candidate substrings any one of which
/// may appear, and `Wildcard` matches exactly one character of any value.
#[verifier::ext_equal]
pub enum TokenModel {
    Literal { chars: Seq<char> },
    Alternatives { alts: Seq<Seq<char>> },
    Wildcard,
}

/// The characters that end a literal run and start (or end) a token of
/// their own: the wildcard marker and the two group markers.
pub open spec fn is_special_char(c: char) -> bool {
    c == '.' || c == '(' || c == ')'
}

/// Index of the first occurrence of `c` in `s`, or `s.len()` if `c` does
/// not occur.
pub open spec fn find_char(s: Seq<char>, c: char) -> int
    decreases s.len(),
{
    if s.len() <= 0 {
        0
    } else if s[0] == c {
        0
    } else {
        1 + find_char(s.drop_first(), c)
    }
}

/// Index of the first special character in `s`, or `s.len()` if none occurs.
pub open spec fn find_special(s: Seq<char>) -> int
    decreases s.len(),
{
    if s.len() <= 0 {
        0
    } else if is_special_char(s[0]) {
        0
    } else {
        1 + find_special(s.drop_first())
    }
}

/// `find_char` returns an in-range index, points at `c` when it found one,
/// and nothing before it is `c`.
pub proof fn lemma_find_char_props(s: Seq<char>, c: char)
    ensures
        0 <= find_char(s, c) <= s.len(),
        find_char(s, c) < s.len() ==> s[find_char(s, c)] == c,
        forall|k: int| 0 <= k < find_char(s, c) ==> s[k] != c,
    decreases s.len(),
{
    if s.len() > 0 && s[0] != c {
        lemma_find_char_props(s.drop_first(), c);
        assert forall|k: int| 0 <= k < find_char(s, c) implies s[k] != c by {
            if k >= 1 {
                assert(s[k] == s.drop_first()[k - 1]);
            }
        }
    }
}

/// Any index with the first-occurrence properties is `find_char`.
pub proof fn lemma_find_char_is(s: Seq<char>, c: char, j: int)
    requires
        0 <= j <= s.len(),
        forall|k: int| 0 <= k < j ==> s[k] != c,
        j < s.len() ==> s[j] == c,
    ensures
        find_char(s, c) == j,
    decreases s.len(),
{
    if s.len() == 0 {
    } else if s[0] == c {
        assert(j == 0);
    } else {
        assert(j >= 1);
        lemma_find_char_is(s.drop_first(), c, j - 1);
    }
}

/// `find_special` returns an in-range index, points at a special character
/// when it found one, and nothing before it is special.
pub proof fn lemma_find_special_props(s: Seq<char>)
    ensures
        0 <= find_special(s) <= s.len(),
        find_special(s) < s.len() ==> is_special_char(s[find_special(s)]),
        forall|k: int| 0 <= k < find_special(s) ==> !is_special_char(s[k]),
    decreases s.len(),
{
    if s.len() > 0 && !is_special_char(s[0]) {
        lemma_find_special_props(s.drop_first());
        assert forall|k: int| 0 <= k < find_special(s) implies !is_special_char(s[k]) by {
            if k >= 1 {
                assert(s[k] == s.drop_first()[k - 1]);
            }
        }
    }
}

/// Any index with the first-special properties is `find_special`.
pub proof fn lemma_find_special_is(s: Seq<char>, j: int)
    requires
        0 <= j <= s.len(),
        forall|k: int| 0 <= k < j ==> !is_special_char(s[k]),
        j < s.len() ==> is_special_char(s[j]),
    ensures
        find_special(s) == j,
    decreases s.len(),
{
    if s.len() == 0 {
    } else if is_special_char(s[0]) {
        assert(j == 0);
    } else {
        assert(j >= 1);
        lemma_find_special_is(s.drop_first(), j - 1);
    }
}

/// The contents of a group split on the separator `|` into the ordered set
/// of alternatives. Every segment counts, so the empty text yields one
/// empty alternative and `a|` yields `a` and the empty alternative.
pub open spec fn split_alts(s: Seq<char>) -> Seq<Seq<char>>
    decreases s.len(),
    via split_alts_decreases
{
    let j = find_char(s, '|');
    if j >= s.len() {
        seq![s]
    } else {
        seq![s.take(j)] + split_alts(s.skip(j + 1))
    }
}

#[via_fn]
proof fn split_alts_decreases(s: Seq<char>) {
    lemma_find_char_props(s, '|');
}

/// What a pattern text parses to: the token sequence, or `None` on a
/// grammar violation (an unterminated group, or a stray close marker).
///
/// The scan is a single left-to-right pass: a `.` is one wildcard token; a
/// `(` opens a group that runs to the first `)` (no nesting) and yields one
/// alternatives token; a `)` seen outside a group fails the parse; anything
/// else starts a maximal literal run.
pub open spec fn spec_parse(s: Seq<char>) -> Option<Seq<TokenModel>>
    decreases s.len(),
    via spec_parse_decreases
{
    if s.len() == 0 {
        Some(Seq::empty())
    } else if s[0] == '.' {
        parse_join(seq![TokenModel::Wildcard], spec_parse(s.skip(1)))
    } else if s[0] == '(' {
        let j = find_char(s, ')');
        if j >= s.len() {
            None
        } else {
            parse_join(
                seq![TokenModel::Alternatives { alts: split_alts(s.subrange(1, j)) }],
                spec_parse(s.skip(j + 1)),
            )
        }
    } else if s[0] == ')' {
        None
    } else {
        let e = find_special(s);
        parse_join(seq![TokenModel::Literal { chars: s.take(e) }], spec_parse(s.skip(e)))
    }
}

#[via_fn]
proof fn spec_parse_decreases(s: Seq<char>) {
    lemma_find_char_props(s, ')');
    lemma_find_special_props(s);
}

/// Prepends already-parsed tokens to the outcome of parsing the rest of the
/// text; a failure further right fails the whole parse.
pub open spec fn parse_join(pre: Seq<TokenModel>, tail: Option<Seq<TokenModel>>) -> Option<
    Seq<TokenModel>,
> {
    match tail {
        Some(rest) => Some(pre + rest),
        None => None,
    }
}

/// The first alternative, in declared order, that is a prefix of `s`.
pub open spec fn first_alt(alts: Seq<Seq<char>>, s: Seq<char>) -> Option<Seq<char>>
    decreases alts.len(),
{
    if alts.len() == 0 {
        None
    } else if alts[0].is_prefix_of(s) {
        Some(alts[0])
    } else {
        first_alt(alts.drop_first(), s)
    }
}

/// If the alternatives before index `k` all fail to match and the one at
/// `k` matches, then `first_alt` picks the one at `k`: first declared wins.
pub proof fn lemma_first_alt_found(alts: Seq<Seq<char>>, s: Seq<char>, k: int)
    requires
        0 <= k < alts.len(),
        forall|k2: int| 0 <= k2 < k ==> !alts[k2].is_prefix_of(s),
        alts[k].is_prefix_of(s),
    ensures
        first_alt(alts, s) == Some(alts[k]),
    decreases alts.len(),
{
    if k == 0 {
    } else {
        assert(!alts[0].is_prefix_of(s));
        assert forall|k2: int| 0 <= k2 < k - 1 implies !alts.drop_first()[k2].is_prefix_of(s) by {
            assert(alts.drop_first()[k2] == alts[k2 + 1]);
        }
        lemma_first_alt_found(alts.drop_first(), s, k - 1);
    }
}

/// If no alternative matches, `first_alt` finds none.
pub proof fn lemma_first_alt_none(alts: Seq<Seq<char>>, s: Seq<char>)
    requires
        forall|k2: int| 0 <= k2 < alts.len() ==> !alts[k2].is_prefix_of(s),
    ensures
        first_alt(alts, s) is None,
    decreases alts.len(),
{
    if alts.len() > 0 {
        assert forall|k2: int| 0 <= k2 < alts.len() - 1 implies !alts.drop_first()[k2].is_prefix_of(
            s,
        ) by {
            assert(alts.drop_first()[k2] == alts[k2 + 1]);
        }
        lemma_first_alt_none(alts.drop_first(), s);
    }
}

/// The characters one token consumes at the front of `s`, or `None` if the
/// token does not match there.
pub open spec fn token_consumes(t: TokenModel, s: Seq<char>) -> Option<Seq<char>> {
    match t {
        TokenModel::Literal { chars } => if chars.is_prefix_of(s) {
            Some(chars)
        } else {
            None
        },
        TokenModel::Alternatives { alts } => first_alt(alts, s),
        TokenModel::Wildcard => if s.len() > 0 {
            Some(s.take(1))
        } else {
            None
        },
    }
}

/// The token/substring pairs a greedy left-to-right match returns: tokens
/// are tried in order, each consuming at the cursor, and the first token
/// that fails to match truncates the result.
pub open spec fn spec_match(tokens: Seq<TokenModel>, s: Seq<char>) -> Seq<(TokenModel, Seq<char>)>
    decreases tokens.len(),
{
    if tokens.len() == 0 {
        Seq::empty()
    } else {
        match token_consumes(tokens[0], s) {
            Some(m) => seq![(tokens[0], m)] + spec_match(tokens.drop_first(), s.skip(m.len() as int)),
            None => Seq::empty(),
        }
    }
}

/// A picked alternative always appears at the front of the candidate.
pub proof fn lemma_first_alt_prefix(alts: Seq<Seq<char>>, s: Seq<char>)
    ensures
        first_alt(alts, s) matches Some(a) ==> a.is_prefix_of(s),
    decreases alts.len(),
{
    if alts.len() > 0 && !alts[0].is_prefix_of(s) {
        lemma_first_alt_prefix(alts.drop_first(), s);
    }
}

/// One successful token step of the greedy match: when the token at `ti`
/// consumes `m` at the cursor, the pending result grows by that pair and
/// the cursor advances past `m`.
pub proof fn lemma_match_step(
    toks: Seq<TokenModel>,
    s: Seq<char>,
    ti: int,
    pos: int,
    pre: Seq<(TokenModel, Seq<char>)>,
    m: Seq<char>,
)
    requires
        0 <= ti < toks.len(),
        0 <= pos <= s.len(),
        m.len() <= s.len() - pos,
        token_consumes(toks[ti], s.skip(pos)) == Some(m),
        spec_match(toks, s) == pre + spec_match(toks.skip(ti), s.skip(pos)),
    ensures
        spec_match(toks, s) == (pre + seq![(toks[ti], m)]) + spec_match(
            toks.skip(ti + 1),
            s.skip(pos + m.len()),
        ),
{
    let cur = toks.skip(ti);
    let scur = s.skip(pos);
    assert(cur[0] == toks[ti]);
    assert(spec_match(cur, scur) == seq![(cur[0], m)] + spec_match(
        cur.drop_first(),
        scur.skip(m.len() as int),
    ));
    assert(cur.drop_first() =~= toks.skip(ti + 1));
    assert(scur.skip(m.len() as int) =~= s.skip(pos + m.len()));
    assert(pre + (seq![(toks[ti], m)] + spec_match(toks.skip(ti + 1), s.skip(pos + m.len())))
        =~= (pre + seq![(toks[ti], m)]) + spec_match(toks.skip(ti + 1), s.skip(pos + m.len())));
}

/// The first failing token truncates the match: the pairs gathered so far
/// are the whole result.
pub proof fn lemma_match_stop(
    toks: Seq<TokenModel>,
    s: Seq<char>,
    ti: int,
    pos: int,
    pre: Seq<(TokenModel, Seq<char>)>,
)
    requires
        0 <= ti < toks.len(),
        0 <= pos <= s.len(),
        token_consumes(toks[ti], s.skip(pos)) is None,
        spec_match(toks, s) == pre + spec_match(toks.skip(ti), s.skip(pos)),
    ensures
        spec_match(toks, s) == pre,
{
    assert(toks.skip(ti).len() > 0);
    assert(toks.skip(ti)[0] == toks[ti]);
    assert(spec_match(toks.skip(ti), s.skip(pos)) =~= Seq::<(TokenModel, Seq<char>)>::empty());
    assert(pre + Seq::<(TokenModel, Seq<char>)>::empty() =~= pre);
}

/// Exhausting the token sequence ends the match: the pairs gathered so far
/// are the whole result.
pub proof fn lemma_match_done(
    toks: Seq<TokenModel>,
    s: Seq<char>,
    pos: int,
    pre: Seq<(TokenModel, Seq<char>)>,
)
    requires
        0 <= pos <= s.len(),
        spec_match(toks, s) == pre + spec_match(toks.skip(toks.len() as int), s.skip(pos)),
    ensures
        spec_match(toks, s) == pre,
{
    assert(toks.skip(toks.len() as int) =~= Seq::<TokenModel>::empty());
    assert(spec_match(Seq::<TokenModel>::empty(), s.skip(pos)) =~= Seq::<
        (TokenModel, Seq<char>),
    >::empty());
    assert(pre + Seq::<(TokenModel, Seq<char>)>::empty() =~= pre);
}

/// The matched substrings of a result, concatenated in order.
pub open spec fn matched_chars(ms: Seq<(TokenModel, Seq<char>)>) -> Seq<char>
    decreases ms.len(),
{
    if ms.len() == 0 {
        Seq::empty()
    } else {
        ms[0].1 + matched_chars(ms.drop_first())
    }
}

} // verus!
