//! The executable pattern matcher: token type, parser, and match engine.

use vstd::prelude::*;

use vstd::slice::slice_index_get;

use crate::model::first_alt;
use crate::model::is_special_char;
use crate::model::lemma_find_char_is;
use crate::model::lemma_find_special_is;
use crate::model::lemma_first_alt_found;
use crate::model::lemma_first_alt_none;
use crate::model::lemma_first_alt_prefix;
use crate::model::lemma_match_done;
use crate::model::lemma_match_step;
use crate::model::lemma_match_stop;
use crate::model::parse_join;
use crate::model::spec_match;
use crate::model::spec_parse;
use crate::model::split_alts;
use crate::model::token_consumes;
use crate::model::TokenModel;

verus! {

/// One token of a parsed pattern. All text is borrowed from the original
/// pattern string; tokens never own character data.
#[derive(Debug, PartialEq, Eq)]
pub enum MatcherToken<'a> {
    /// This is just text without anything special.
    RawText(&'a str),
    /// This is when text could be any one of multiple strings. It looks
    /// like `(one|two|three)`, where `one`, `two` or `three` are the
    /// allowed strings.
    OneOfText(Vec<&'a str>),
    /// This is when you're happy to accept any single character. It looks
    /// like `.`
    WildCard,
}

/// The character sequences of a list of alternatives, in declared order.
pub open spec fn alts_view(vs: Seq<&str>) -> Seq<Seq<char>> {
    Seq::new(vs.len(), |i: int| vs[i]@)
}

impl<'a> View for MatcherToken<'a> {
    type V = TokenModel;

    open spec fn view(&self) -> TokenModel {
        match self {
            MatcherToken::RawText(t) => TokenModel::Literal { chars: t@ },
            MatcherToken::OneOfText(v) => TokenModel::Alternatives { alts: alts_view(v@) },
            MatcherToken::WildCard => TokenModel::Wildcard,
        }
    }
}

/// The token models of a token sequence, in order.
pub open spec fn tokens_view<'a>(ts: Seq<MatcherToken<'a>>) -> Seq<TokenModel> {
    Seq::new(ts.len(), |i: int| ts[i]@)
}

/// The models of a match result: each matched token paired with the
/// characters of the substring it consumed.
pub open spec fn pairs_view<'x, 'a, 'c>(
    ps: Seq<(&'x MatcherToken<'a>, &'c str)>,
) -> Seq<(TokenModel, Seq<char>)> {
    Seq::new(ps.len(), |i: int| (ps[i].0@, ps[i].1@))
}

/// Index of the first occurrence of `c` in `s` at or after the character
/// index `from`, or the character length of `s` if there is none.
pub(crate) fn find_char_from(s: &str, from: usize, c: char) -> (r: usize)
    requires
        from <= s@.len(),
    ensures
        from <= r <= s@.len(),
        r < s@.len() ==> s@[r as int] == c,
        forall|k: int| from <= k < r ==> s@[k] != c,
{
    let n = s.unicode_len();
    let mut i = from;
    while i < n
        invariant
            from <= i <= n,
            n == s@.len(),
            forall|k: int| from <= k < i ==> s@[k] != c,
        decreases n - i,
    {
        if s.get_char(i) == c {
            return i;
        }
        i = i + 1;
    }
    n
}

/// Index of the first special character in `s` at or after the character
/// index `from`, or the character length of `s` if there is none.
fn find_special_from(s: &str, from: usize) -> (r: usize)
    requires
        from <= s@.len(),
    ensures
        from <= r <= s@.len(),
        r < s@.len() ==> is_special_char(s@[r as int]),
        forall|k: int| from <= k < r ==> !is_special_char(s@[k]),
{
    let n = s.unicode_len();
    let mut i = from;
    while i < n
        invariant
            from <= i <= n,
            n == s@.len(),
            forall|k: int| from <= k < i ==> !is_special_char(s@[k]),
        decreases n - i,
    {
        let c = s.get_char(i);
        if c == '.' || c == '(' || c == ')' {
            return i;
        }
        i = i + 1;
    }
    n
}

/// Whether `pat` appears verbatim in `s` starting at the character index
/// `from`.
fn match_prefix_at(s: &str, from: usize, pat: &str) -> (b: bool)
    requires
        from <= s@.len(),
    ensures
        b == pat@.is_prefix_of(s@.skip(from as int)),
{
    let sn = s.unicode_len();
    let pn = pat.unicode_len();
    if pn > sn - from {
        assert(!pat@.is_prefix_of(s@.skip(from as int)));
        return false;
    }
    let mut k: usize = 0;
    while k < pn
        invariant
            0 <= k <= pn,
            sn == s@.len(),
            pn == pat@.len(),
            from + pn <= sn,
            forall|j: int| 0 <= j < k ==> pat@[j] == s@[from + j],
        decreases pn - k,
    {
        if pat.get_char(k) != s.get_char(from + k) {
            assert(!pat@.is_prefix_of(s@.skip(from as int))) by {
                assert(s@.skip(from as int)[k as int] == s@[from + k]);
            }
            return false;
        }
        k = k + 1;
    }
    assert(pat@.is_prefix_of(s@.skip(from as int))) by {
        assert forall|j: int| 0 <= j < pn implies pat@[j] == s@.skip(from as int)[j] by {
            assert(s@.skip(from as int)[j] == s@[from + j]);
        }
        assert(pat@ =~= s@.skip(from as int).subrange(0, pn as int));
    }
    true
}

/// Appending one token to a sequence appends its model to the sequence's
/// model.
proof fn lemma_tokens_view_push<'a>(ts: Seq<MatcherToken<'a>>, t: MatcherToken<'a>)
    ensures
        tokens_view(ts.push(t)) == tokens_view(ts) + seq![t@],
{
    assert(tokens_view(ts.push(t)) =~= tokens_view(ts) + seq![t@]);
}

/// Tokens already emitted can be folded into the prefix of a pending parse.
proof fn lemma_parse_join_assoc(a: Seq<TokenModel>, b: Seq<TokenModel>, t: Option<Seq<TokenModel>>)
    ensures
        parse_join(a, parse_join(b, t)) == parse_join(a + b, t),
{
    match t {
        Some(rest) => {
            assert(a + (b + rest) =~= (a + b) + rest);
        },
        None => {},
    }
}

/// Splits the group text `s` on `|` into its alternatives, each borrowed
/// from `s`.
fn split_alts_exec<'a>(s: &'a str) -> (parts: Vec<&'a str>)
    ensures
        alts_view(parts@) == split_alts(s@),
{
    let n = s.unicode_len();
    let mut parts: Vec<&'a str> = Vec::new();
    let mut pos: usize = 0;
    proof {
        assert(s@.skip(0) =~= s@);
        assert(alts_view(parts@) + split_alts(s@) =~= split_alts(s@));
    }
    loop
        invariant_except_break
            split_alts(s@) == alts_view(parts@) + split_alts(s@.skip(pos as int)),
        invariant
            pos <= n,
            n == s@.len(),
        ensures
            alts_view(parts@) == split_alts(s@),
        decreases n - pos,
    {
        let ghost pre = parts@;
        let ghost rem = s@.skip(pos as int);
        let j = find_char_from(s, pos, '|');
        let piece = s.substring_char(pos, j);
        parts.push(piece);
        proof {
            assert forall|k: int| 0 <= k < j - pos implies rem[k] != '|' by {
                assert(rem[k] == s@[pos + k]);
            }
            if j < n {
                assert(rem[j - pos] == s@[j as int]);
            }
            lemma_find_char_is(rem, '|', j - pos);
            assert(alts_view(parts@) =~= alts_view(pre) + seq![piece@]);
        }
        if j == n {
            proof {
                assert(piece@ =~= rem);
                assert(split_alts(rem) == seq![rem]);
                assert(alts_view(pre) + seq![piece@] =~= alts_view(pre) + split_alts(rem));
            }
            break;
        }
        proof {
            assert(piece@ =~= rem.take(j - pos));
            assert(rem.skip(j - pos + 1) =~= s@.skip(j + 1));
            assert(split_alts(rem) == seq![rem.take(j - pos)] + split_alts(rem.skip(j - pos + 1)));
            assert(alts_view(pre) + (seq![piece@] + split_alts(s@.skip(j + 1))) =~= (alts_view(
                pre,
            ) + seq![piece@]) + split_alts(s@.skip(j + 1)));
        }
        pos = j + 1;
    }
    parts
}

/// The first alternative in `list`, in declared order, that appears
/// verbatim in `s` at the character index `from`.
fn first_matching_alt<'a>(list: &Vec<&'a str>, s: &str, from: usize) -> (r: Option<&'a str>)
    requires
        from <= s@.len(),
    ensures
        match r {
            Some(a) => first_alt(alts_view(list@), s@.skip(from as int)) == Some(a@),
            None => first_alt(alts_view(list@), s@.skip(from as int)) is None,
        },
{
    let mut k: usize = 0;
    while k < list.len()
        invariant
            k <= list@.len(),
            from <= s@.len(),
            forall|k2: int|
                0 <= k2 < k ==> !alts_view(list@)[k2].is_prefix_of(s@.skip(from as int)),
        decreases list@.len() - k,
    {
        let alt = *slice_index_get(list.as_slice(), k);
        proof {
            assert(alts_view(list@)[k as int] == alt@);
        }
        if match_prefix_at(s, from, alt) {
            proof {
                lemma_first_alt_found(alts_view(list@), s@.skip(from as int), k as int);
            }
            return Some(alt);
        }
        k = k + 1;
    }
    proof {
        lemma_first_alt_none(alts_view(list@), s@.skip(from as int));
    }
    None
}

/// A parsed pattern: the original pattern text, the token sequence parsed
/// from it, and the highest number of tokens any single match call has
/// matched so far.
#[derive(Debug, PartialEq, Eq)]
pub struct Matcher<'a> {
    /// This is the actual text of the matcher.
    pub text: &'a str,
    /// This is a vector of the tokens inside the expression.
    pub tokens: Vec<MatcherToken<'a>>,
    /// This keeps track of the most tokens that this matcher has matched.
    pub most_tokens_matched: usize,
}

impl<'a> Matcher<'a> {
    /// A well-formed matcher carries exactly the token sequence its stored
    /// pattern text parses to.
    pub open spec fn wf(self) -> bool {
        spec_parse(self.text@) == Some(tokens_view(self.tokens@))
    }

    /// Parses `text` into a matcher, or returns `None` on a grammar
    /// violation: an alternatives group that is never closed, or a `)`
    /// with no unclosed `(` before it. No partial matcher is ever
    /// produced, and a fresh matcher has matched nothing yet.
    pub fn new(text: &'a str) -> (r: Option<Matcher<'a>>)
        ensures
            match r {
                Some(m) => m.wf() && m.text@ == text@ && m.most_tokens_matched == 0,
                None => spec_parse(text@) is None,
            },
    {
        let n = text.unicode_len();
        let mut tokens: Vec<MatcherToken<'a>> = Vec::new();
        let mut i: usize = 0;
        proof {
            assert(text@.skip(0) =~= text@);
            match spec_parse(text@) {
                Some(ts) => {
                    assert(tokens_view(tokens@) + ts =~= ts);
                },
                None => {},
            }
        }
        while i < n
            invariant
                0 <= i <= n,
                n == text@.len(),
                spec_parse(text@) == parse_join(
                    tokens_view(tokens@),
                    spec_parse(text@.skip(i as int)),
                ),
            decreases n - i,
        {
            let ghost pre = tokens@;
            let ghost rem = text@.skip(i as int);
            let c = text.get_char(i);
            proof {
                assert(rem[0] == c);
            }
            if c == '.' {
                tokens.push(MatcherToken::WildCard);
                proof {
                    assert(rem.skip(1) =~= text@.skip(i + 1));
                    lemma_tokens_view_push(pre, MatcherToken::WildCard);
                    lemma_parse_join_assoc(
                        tokens_view(pre),
                        seq![TokenModel::Wildcard],
                        spec_parse(text@.skip(i + 1)),
                    );
                }
                i = i + 1;
            } else if c == '(' {
                let j = find_char_from(text, i + 1, ')');
                proof {
                    assert forall|k: int| 0 <= k < j - i implies rem[k] != ')' by {
                        assert(rem[k] == text@[i + k]);
                    }
                    if j < n {
                        assert(rem[j - i] == text@[j as int]);
                    }
                    lemma_find_char_is(rem, ')', j - i);
                }
                if j == n {
                    return None;
                }
                let alt_text = text.substring_char(i + 1, j);
                let alts = split_alts_exec(alt_text);
                let token = MatcherToken::OneOfText(alts);
                let ghost tm = token@;
                tokens.push(token);
                proof {
                    assert(alt_text@ =~= rem.subrange(1, j - i));
                    assert(tm == TokenModel::Alternatives { alts: split_alts(rem.subrange(1, j - i)) });
                    assert(rem.skip(j - i + 1) =~= text@.skip(j + 1));
                    assert(spec_parse(rem) == parse_join(seq![tm], spec_parse(text@.skip(j + 1))));
                    lemma_tokens_view_push(pre, token);
                    lemma_parse_join_assoc(
                        tokens_view(pre),
                        seq![tm],
                        spec_parse(text@.skip(j + 1)),
                    );
                }
                i = j + 1;
            } else if c == ')' {
                return None;
            } else {
                let e = find_special_from(text, i);
                proof {
                    assert(!is_special_char(rem[0]));
                    assert forall|k: int| 0 <= k < e - i implies !is_special_char(rem[k]) by {
                        assert(rem[k] == text@[i + k]);
                    }
                    if e < n {
                        assert(rem[e - i] == text@[e as int]);
                    }
                    lemma_find_special_is(rem, e - i);
                }
                let lit = text.substring_char(i, e);
                let token = MatcherToken::RawText(lit);
                let ghost tm = token@;
                tokens.push(token);
                proof {
                    assert(lit@ =~= rem.take(e - i));
                    assert(tm == TokenModel::Literal { chars: rem.take(e - i) });
                    assert(rem.skip(e - i) =~= text@.skip(e as int));
                    assert(spec_parse(rem) == parse_join(seq![tm], spec_parse(text@.skip(e as int))));
                    lemma_tokens_view_push(pre, token);
                    lemma_parse_join_assoc(
                        tokens_view(pre),
                        seq![tm],
                        spec_parse(text@.skip(e as int)),
                    );
                }
                i = e;
            }
        }
        proof {
            assert(text@.skip(n as int) =~= Seq::<char>::empty());
            assert(spec_parse(text@.skip(n as int)) == Some(Seq::<TokenModel>::empty()));
            assert(tokens_view(tokens@) + Seq::<TokenModel>::empty() =~= tokens_view(tokens@));
        }
        Some(Matcher { text, tokens, most_tokens_matched: 0 })
    }

    /// Matches `string` greedily against the token sequence, left to
    /// right and without backtracking: each token consumes at a cursor
    /// that only ever advances, and the first token that fails to match
    /// truncates the result. Returns the matched tokens paired with the
    /// exact substring each consumed, and raises `most_tokens_matched` to
    /// the result length when that sets a new record.
    pub fn match_string<'b, 'c>(&'b mut self, string: &'c str) -> (r: Vec<
        (&'b MatcherToken<'a>, &'c str),
    >)
        ensures
            pairs_view(r@) == spec_match(tokens_view(old(self).tokens@), string@),
            final(self).text == old(self).text,
            final(self).tokens == old(self).tokens,
            r@.len() > old(self).most_tokens_matched ==> final(self).most_tokens_matched
                == r@.len(),
            r@.len() <= old(self).most_tokens_matched ==> final(self).most_tokens_matched
                == old(self).most_tokens_matched,
            final(self).most_tokens_matched >= old(self).most_tokens_matched,
    {
        let ghost toks = tokens_view(self.tokens@);
        let sn = string.unicode_len();
        let mut matched: Vec<(&'b MatcherToken<'a>, &'c str)> = Vec::new();
        let mut pos: usize = 0;
        let mut ti: usize = 0;
        proof {
            assert(toks.skip(0) =~= toks);
            assert(string@.skip(0) =~= string@);
            assert(pairs_view(matched@) + spec_match(toks, string@) =~= spec_match(toks, string@));
        }
        loop
            invariant_except_break
                spec_match(toks, string@) == pairs_view(matched@) + spec_match(
                    toks.skip(ti as int),
                    string@.skip(pos as int),
                ),
            invariant
                ti <= self.tokens.len(),
                pos <= sn,
                sn == string@.len(),
                toks == tokens_view(self.tokens@),
            ensures
                pairs_view(matched@) == spec_match(toks, string@),
            decreases self.tokens.len() - ti,
        {
            if ti == self.tokens.len() {
                proof {
                    lemma_match_done(toks, string@, pos as int, pairs_view(matched@));
                }
                break;
            }
            let ghost pre = matched@;
            let ghost scur = string@.skip(pos as int);
            let token = slice_index_get(self.tokens.as_slice(), ti);
            proof {
                assert(toks[ti as int] == token@);
            }
            match token {
                MatcherToken::WildCard => {
                    if pos < sn {
                        let w = string.substring_char(pos, pos + 1);
                        matched.push((token, w));
                        proof {
                            assert(w@ =~= scur.take(1));
                            assert(token_consumes(toks[ti as int], scur) == Some(scur.take(1)));
                            lemma_match_step(
                                toks,
                                string@,
                                ti as int,
                                pos as int,
                                pairs_view(pre),
                                scur.take(1),
                            );
                            assert(pairs_view(matched@) =~= pairs_view(pre) + seq![
                                (toks[ti as int], scur.take(1)),
                            ]);
                        }
                        pos = pos + 1;
                        ti = ti + 1;
                    } else {
                        proof {
                            assert(scur.len() == 0);
                            assert(token_consumes(toks[ti as int], scur) is None);
                            lemma_match_stop(toks, string@, ti as int, pos as int, pairs_view(pre));
                        }
                        break;
                    }
                },
                MatcherToken::RawText(value) => {
                    let v: &'a str = *value;
                    if match_prefix_at(string, pos, v) {
                        let l = v.unicode_len();
                        proof {
                            assert(v@.len() <= scur.len());
                        }
                        let w = string.substring_char(pos, pos + l);
                        matched.push((token, w));
                        proof {
                            assert(v@ =~= scur.subrange(0, l as int));
                            assert(w@ =~= v@);
                            assert(token_consumes(toks[ti as int], scur) == Some(v@));
                            lemma_match_step(
                                toks,
                                string@,
                                ti as int,
                                pos as int,
                                pairs_view(pre),
                                v@,
                            );
                            assert(pairs_view(matched@) =~= pairs_view(pre) + seq![
                                (toks[ti as int], v@),
                            ]);
                        }
                        pos = pos + l;
                        ti = ti + 1;
                    } else {
                        proof {
                            assert(token_consumes(toks[ti as int], scur) is None);
                            lemma_match_stop(toks, string@, ti as int, pos as int, pairs_view(pre));
                        }
                        break;
                    }
                },
                MatcherToken::OneOfText(list) => {
                    let found = first_matching_alt(list, string, pos);
                    match found {
                        Some(a) => {
                            let l = a.unicode_len();
                            proof {
                                lemma_first_alt_prefix(alts_view(list@), scur);
                                assert(a@.is_prefix_of(scur));
                                assert(a@.len() <= scur.len());
                            }
                            let w = string.substring_char(pos, pos + l);
                            matched.push((token, w));
                            proof {
                                assert(a@ =~= scur.subrange(0, l as int));
                                assert(w@ =~= a@);
                                assert(token_consumes(toks[ti as int], scur) == Some(a@));
                                lemma_match_step(
                                    toks,
                                    string@,
                                    ti as int,
                                    pos as int,
                                    pairs_view(pre),
                                    a@,
                                );
                                assert(pairs_view(matched@) =~= pairs_view(pre) + seq![
                                    (toks[ti as int], a@),
                                ]);
                            }
                            pos = pos + l;
                            ti = ti + 1;
                        },
                        None => {
                            proof {
                                assert(token_consumes(toks[ti as int], scur) is None);
                                lemma_match_stop(
                                    toks,
                                    string@,
                                    ti as int,
                                    pos as int,
                                    pairs_view(pre),
                                );
                            }
                            break;
                        },
                    }
                },
            }
        }
        let result_len = matched.len();
        if result_len > self.most_tokens_matched {
            self.most_tokens_matched = result_len;
        }
        matched
    }
}

} // verus!
