//! Global properties of the scan, proved once and for all against the
//! mathematical model: determinism, well-formedness of every successful
//! token sequence, maximality of token boundaries, and insensitivity of
//! kinds and texts to whitespace between tokens.
use vstd::prelude::*;

use crate::model::is_digit;
use crate::model::is_ident_continue;
use crate::model::is_ident_start;
use crate::model::is_whitespace;
use crate::model::digit_end;
use crate::model::ident_end;
use crate::model::lemma_digit_end;
use crate::model::lemma_ident_end;
use crate::model::lemma_next_token_at;
use crate::model::lemma_quote_end;
use crate::model::lex_from;
use crate::model::lex_spec;
use crate::model::next_token_at;
use crate::model::quote_end;
use crate::model::single_char_kind;
use crate::token::LexErrorKind;
use crate::token::LexErrorModel;
use crate::token::TokenKind;
use crate::token::TokenModel;
use crate::token::keyword_kind;

verus! {

/// Re-running the scan on the same input always yields the identical
/// outcome: the result is a function of the input characters alone, with
/// no hidden state.
pub proof fn lemma_lex_deterministic(s1: Seq<char>, s2: Seq<char>)
    requires
        s1 == s2,
    ensures
        lex_spec(s1) == lex_spec(s2),
{
}

/// `t` is a well-formed token of the input `s`: a non-empty exact
/// substring of `s`, at its own position.
pub open spec fn token_wf(s: Seq<char>, t: TokenModel) -> bool {
    &&& 0 <= t.position
    &&& t.text.len() >= 1
    &&& t.position + t.text.len() <= s.len()
    &&& t.text == s.subrange(t.position, t.position + t.text.len())
}

/// Every token of `toks` is a well-formed token of `s`, and the tokens
/// stand in strictly increasing position order without overlapping.
pub open spec fn tokens_wf(s: Seq<char>, toks: Seq<TokenModel>) -> bool {
    &&& forall|k: int| 0 <= k < toks.len() ==> token_wf(s, #[trigger] toks[k])
    &&& forall|k: int|
        0 <= k < toks.len() - 1 ==> (#[trigger] toks[k]).position + toks[k].text.len()
            <= toks[k + 1].position
}

/// A successful scan from `i` yields only well-formed, ordered,
/// non-overlapping tokens, all at positions at or after `i`.
#[verifier::rlimit(100)]
pub proof fn lemma_lex_from_wf(s: Seq<char>, i: int)
    requires
        0 <= i <= s.len(),
    ensures
        lex_from(s, i) matches Ok(toks) ==> tokens_wf(s, toks) && forall|k: int|
            0 <= k < toks.len() ==> i <= (#[trigger] toks[k]).position,
    decreases s.len() - i,
{
    if i >= s.len() {
    } else if is_whitespace(s[i]) {
        lemma_lex_from_wf(s, i + 1);
    } else {
        lemma_next_token_at(s, i);
        match next_token_at(s, i) {
            Err(_) => {
            },
            Ok((t, e)) => {
                lemma_lex_from_wf(s, e);
                match lex_from(s, e) {
                    Err(_) => {
                    },
                    Ok(rest) => {
                        let toks = seq![t] + rest;
                        assert(lex_from(s, i) == Ok::<Seq<TokenModel>, LexErrorModel>(toks));
                        assert(token_wf(s, t));
                        assert forall|k: int|
                            0 <= k < toks.len() implies token_wf(s, #[trigger] toks[k]) && i
                            <= toks[k].position by {
                            if k > 0 {
                                assert(toks[k] == rest[k - 1]);
                            }
                        }
                        assert forall|k: int|
                            0 <= k < toks.len() - 1 implies (#[trigger] toks[k]).position
                            + toks[k].text.len() <= toks[k + 1].position by {
                            if k == 0 {
                                assert(toks[1] == rest[0]);
                            } else {
                                assert(toks[k] == rest[k - 1]);
                                assert(toks[k + 1] == rest[k]);
                            }
                        }
                    },
                }
            },
        }
    }
}

/// The whole-input form of `lemma_lex_from_wf`: every successful scan
/// returns well-formed, ordered, non-overlapping tokens, so reading the
/// texts back in position order reconstructs the input minus whitespace.
pub proof fn lemma_lex_wf(s: Seq<char>, toks: Seq<TokenModel>)
    requires
        lex_spec(s) == Ok::<Seq<TokenModel>, LexErrorModel>(toks),
    ensures
        tokens_wf(s, toks),
{
    lemma_lex_from_wf(s, 0);
}

/// Position `m` lies inside the span of some token of `toks`.
pub open spec fn covered_by(toks: Seq<TokenModel>, m: int) -> bool {
    exists|k: int|
        0 <= k < toks.len() && (#[trigger] toks[k]).position <= m < toks[k].position
            + toks[k].text.len()
}

/// Between the tokens of a successful scan from `i` stands nothing but
/// whitespace: every position from `i` on that lies in no token span
/// holds a whitespace character.
proof fn lemma_lex_from_gaps(s: Seq<char>, i: int)
    requires
        0 <= i <= s.len(),
    ensures
        lex_from(s, i) matches Ok(toks) ==> forall|m: int|
            i <= m < s.len() && !covered_by(toks, m) ==> is_whitespace(#[trigger] s[m]),
    decreases s.len() - i,
{
    if i >= s.len() {
    } else if is_whitespace(s[i]) {
        lemma_lex_from_gaps(s, i + 1);
    } else {
        lemma_next_token_at(s, i);
        match next_token_at(s, i) {
            Err(_) => {
            },
            Ok((t, e)) => {
                lemma_lex_from_gaps(s, e);
                match lex_from(s, e) {
                    Err(_) => {
                    },
                    Ok(rest) => {
                        let toks = seq![t] + rest;
                        assert(lex_from(s, i) == Ok::<Seq<TokenModel>, LexErrorModel>(toks));
                        assert(toks[0] == t);
                        assert forall|m: int|
                            i <= m < s.len() && !covered_by(toks, m) implies is_whitespace(
                            #[trigger] s[m],
                        ) by {
                            if m < e {
                                assert(toks[0].position <= m < toks[0].position
                                    + toks[0].text.len());
                                assert(covered_by(toks, m));
                            } else {
                                if covered_by(rest, m) {
                                    let k = choose|k: int|
                                        0 <= k < rest.len() && (#[trigger] rest[k]).position <= m
                                            < rest[k].position + rest[k].text.len();
                                    assert(toks[k + 1] == rest[k]);
                                    assert(covered_by(toks, m));
                                }
                            }
                        }
                    },
                }
            },
        }
    }
}

/// The whole-input form of `lemma_lex_from_gaps`: whitespace is all that
/// ever stands between, before, or after the tokens of a successful scan,
/// so the token texts plus the whitespace in the gaps reconstruct the
/// input exactly.
pub proof fn lemma_lex_gaps_whitespace(s: Seq<char>, toks: Seq<TokenModel>)
    requires
        lex_spec(s) == Ok::<Seq<TokenModel>, LexErrorModel>(toks),
    ensures
        forall|m: int|
            0 <= m < s.len() && !covered_by(toks, m) ==> is_whitespace(#[trigger] s[m]),
{
    lemma_lex_from_gaps(s, 0);
}

/// Every token of `toks` is exactly the token that scanning finds at that
/// token's own position: each boundary is maximal where it stands.
pub open spec fn locally_maximal(s: Seq<char>, toks: Seq<TokenModel>) -> bool {
    forall|k: int|
        0 <= k < toks.len() ==> next_token_at(s, (#[trigger] toks[k]).position) == Ok::<
            (TokenModel, int),
            LexErrorModel,
        >((toks[k], toks[k].position + toks[k].text.len()))
}

/// A successful scan emits at each position precisely the token that
/// `next_token_at` yields there.
pub proof fn lemma_lex_from_maximal(s: Seq<char>, i: int, toks: Seq<TokenModel>)
    requires
        0 <= i <= s.len(),
        lex_from(s, i) == Ok::<Seq<TokenModel>, LexErrorModel>(toks),
    ensures
        locally_maximal(s, toks),
    decreases s.len() - i,
{
    if i >= s.len() {
    } else if is_whitespace(s[i]) {
        lemma_lex_from_maximal(s, i + 1, toks);
    } else {
        match next_token_at(s, i) {
            Err(_) => {
            },
            Ok((t, e)) => {
                lemma_next_token_at(s, i);
                match lex_from(s, e) {
                    Err(_) => {
                    },
                    Ok(rest) => {
                        lemma_lex_from_maximal(s, e, rest);
                        assert(toks == seq![t] + rest);
                        assert(toks[0] == t);
                        assert(forall|k: int| 1 <= k < toks.len() ==> toks[k] == rest[k - 1]);
                    },
                }
            },
        }
    }
}

/// Maximal munch for `->`: wherever a token of a successful scan begins at
/// a `-` immediately followed by `>`, that token is one `Arrow` whose text
/// is both characters — never a `Minus` fragment.
pub proof fn lemma_arrow_maximal_munch(s: Seq<char>, toks: Seq<TokenModel>, k: int)
    requires
        lex_spec(s) == Ok::<Seq<TokenModel>, LexErrorModel>(toks),
        0 <= k < toks.len(),
        toks[k].position + 1 < s.len(),
        s[toks[k].position] == '-',
        s[toks[k].position + 1] == '>',
    ensures
        toks[k].kind == TokenKind::Arrow,
        toks[k].text == s.subrange(toks[k].position, toks[k].position + 2),
{
    lemma_lex_from_maximal(s, 0, toks);
}

/// Maximal munch for `:=`: wherever a token of a successful scan begins at
/// a `:` immediately followed by `=`, that token is one `Assign` whose
/// text is both characters — never a `Colon` fragment.
pub proof fn lemma_assign_maximal_munch(s: Seq<char>, toks: Seq<TokenModel>, k: int)
    requires
        lex_spec(s) == Ok::<Seq<TokenModel>, LexErrorModel>(toks),
        0 <= k < toks.len(),
        toks[k].position + 1 < s.len(),
        s[toks[k].position] == ':',
        s[toks[k].position + 1] == '=',
    ensures
        toks[k].kind == TokenKind::Assign,
        toks[k].text == s.subrange(toks[k].position, toks[k].position + 2),
{
    lemma_lex_from_maximal(s, 0, toks);
}

/// Only the `-` branch of the scan yields a `Minus` token, and only when
/// no `>` follows: every other branch yields another kind or an error.
proof fn lemma_minus_token_shape(s: Seq<char>, p: int)
    requires
        next_token_at(s, p) matches Ok(te) && te.0.kind == TokenKind::Minus,
    ensures
        s[p] == '-',
        !(p + 1 < s.len() && s[p + 1] == '>'),
{
    if is_ident_start(s[p]) {
        assert(keyword_kind(s.subrange(p, ident_end(s, p + 1))) != TokenKind::Minus);
    }
    if single_char_kind(s[p]) is Some {
        assert(single_char_kind(s[p])->Some_0 != TokenKind::Minus);
    }
}

/// Only the lone-`:` branch of the scan yields a `Colon` token, and only
/// when no `=` follows: every other branch yields another kind or an error.
proof fn lemma_colon_token_shape(s: Seq<char>, p: int)
    requires
        next_token_at(s, p) matches Ok(te) && te.0.kind == TokenKind::Colon,
    ensures
        s[p] == ':',
        !(p + 1 < s.len() && s[p + 1] == '='),
{
    if is_ident_start(s[p]) {
        assert(keyword_kind(s.subrange(p, ident_end(s, p + 1))) != TokenKind::Colon);
    }
    if single_char_kind(s[p]) is Some {
        assert(single_char_kind(s[p])->Some_0 != TokenKind::Colon);
    }
}

/// A `Minus` token is never immediately followed by `>` in the input: the
/// two characters of `->` never come out as separate fragments.
pub proof fn lemma_minus_never_splits_arrow(s: Seq<char>, toks: Seq<TokenModel>, k: int)
    requires
        lex_spec(s) == Ok::<Seq<TokenModel>, LexErrorModel>(toks),
        0 <= k < toks.len(),
        toks[k].kind == TokenKind::Minus,
    ensures
        toks[k].position + 1 == s.len() || s[toks[k].position + 1] != '>',
{
    let t = toks[k];
    let p = t.position;
    assert(next_token_at(s, p) == Ok::<(TokenModel, int), LexErrorModel>((t, p + t.text.len()))
        && p + t.text.len() <= s.len() && t.text.len() >= 1) by {
        lemma_lex_from_maximal(s, 0, toks);
        lemma_lex_from_wf(s, 0);
    }
    lemma_minus_token_shape(s, p);
}

/// A `Colon` token is never immediately followed by `=` in the input: the
/// two characters of `:=` never come out as separate fragments.
pub proof fn lemma_colon_never_splits_assign(s: Seq<char>, toks: Seq<TokenModel>, k: int)
    requires
        lex_spec(s) == Ok::<Seq<TokenModel>, LexErrorModel>(toks),
        0 <= k < toks.len(),
        toks[k].kind == TokenKind::Colon,
    ensures
        toks[k].position + 1 == s.len() || s[toks[k].position + 1] != '=',
{
    let t = toks[k];
    let p = t.position;
    assert(next_token_at(s, p) == Ok::<(TokenModel, int), LexErrorModel>((t, p + t.text.len()))
        && p + t.text.len() <= s.len() && t.text.len() >= 1) by {
        lemma_lex_from_maximal(s, 0, toks);
        lemma_lex_from_wf(s, 0);
    }
    lemma_colon_token_shape(s, p);
}


/// The maximal identifier run from `j` ends exactly where the identifier
/// characters stop.
proof fn lemma_ident_end_exact(s: Seq<char>, j: int, e: int)
    requires
        0 <= j <= e <= s.len(),
        forall|k: int| j <= k < e ==> is_ident_continue(#[trigger] s[k]),
        e < s.len() ==> !is_ident_continue(s[e]),
    ensures
        ident_end(s, j) == e,
    decreases e - j,
{
    if j < e {
        assert(is_ident_continue(s[j]));
        lemma_ident_end_exact(s, j + 1, e);
    }
}

/// The maximal digit run from `j` ends exactly where the digits stop.
proof fn lemma_digit_end_exact(s: Seq<char>, j: int, e: int)
    requires
        0 <= j <= e <= s.len(),
        forall|k: int| j <= k < e ==> is_digit(#[trigger] s[k]),
        e < s.len() ==> !is_digit(s[e]),
    ensures
        digit_end(s, j) == e,
    decreases e - j,
{
    if j < e {
        assert(is_digit(s[j]));
        lemma_digit_end_exact(s, j + 1, e);
    }
}

/// `quote_end` from `j` finds exactly the first quote at or after `j`.
proof fn lemma_quote_end_exact(s: Seq<char>, j: int, q: int)
    requires
        0 <= j <= q < s.len(),
        s[q] == '"',
        forall|k: int| j <= k < q ==> #[trigger] s[k] != '"',
    ensures
        quote_end(s, j) == q,
    decreases q - j,
{
    if j < q {
        lemma_quote_end_exact(s, j + 1, q);
    }
}

/// `toks` with every position moved right by `d`.
pub open spec fn shift_tokens(toks: Seq<TokenModel>, d: int) -> Seq<TokenModel> {
    toks.map_values(
        |t: TokenModel| TokenModel { kind: t.kind, text: t.text, position: t.position + d },
    )
}

/// The identifier run end depends only on the characters at and after the
/// cursor: it moves along under a right shift by `d` of the suffix.
proof fn lemma_ident_end_shift(s1: Seq<char>, s2: Seq<char>, d: int, j: int)
    requires
        0 <= j <= s1.len(),
        s2.len() == s1.len() + d,
        forall|k: int| j <= k < s1.len() ==> s2[k + d] == #[trigger] s1[k],
    ensures
        ident_end(s2, j + d) == ident_end(s1, j) + d,
    decreases s1.len() - j,
{
    if j < s1.len() && is_ident_continue(s1[j]) {
        lemma_ident_end_shift(s1, s2, d, j + 1);
    }
}

/// The digit run end moves along under a right shift by `d` of the suffix.
proof fn lemma_digit_end_shift(s1: Seq<char>, s2: Seq<char>, d: int, j: int)
    requires
        0 <= j <= s1.len(),
        s2.len() == s1.len() + d,
        forall|k: int| j <= k < s1.len() ==> s2[k + d] == #[trigger] s1[k],
    ensures
        digit_end(s2, j + d) == digit_end(s1, j) + d,
    decreases s1.len() - j,
{
    if j < s1.len() && is_digit(s1[j]) {
        lemma_digit_end_shift(s1, s2, d, j + 1);
    }
}

/// The position of the next quote moves along under a right shift by `d`
/// of the suffix, and absence of a quote is preserved.
proof fn lemma_quote_end_shift(s1: Seq<char>, s2: Seq<char>, d: int, j: int)
    requires
        0 <= j <= s1.len(),
        s2.len() == s1.len() + d,
        forall|k: int| j <= k < s1.len() ==> s2[k + d] == #[trigger] s1[k],
    ensures
        quote_end(s1, j) == -1 ==> quote_end(s2, j + d) == -1,
        quote_end(s1, j) >= 0 ==> quote_end(s2, j + d) == quote_end(s1, j) + d,
    decreases s1.len() - j,
{
    if j < s1.len() && s1[j] != '"' {
        lemma_quote_end_shift(s1, s2, d, j + 1);
    }
}

/// Under a right shift by `d` of the suffix, scanning at `i + d` in the
/// shifted input finds the same token or error, displaced by `d`.
#[verifier::rlimit(50)]
proof fn lemma_next_token_shift(s1: Seq<char>, s2: Seq<char>, d: int, i: int)
    requires
        0 <= i < s1.len(),
        0 <= d,
        s2.len() == s1.len() + d,
        forall|k: int| i <= k < s1.len() ==> s2[k + d] == #[trigger] s1[k],
    ensures
        (match next_token_at(s1, i) {
            Ok(te) => next_token_at(s2, i + d) == Ok::<(TokenModel, int), LexErrorModel>(
                (
                    TokenModel { kind: te.0.kind, text: te.0.text, position: te.0.position + d },
                    te.1 + d,
                ),
            ),
            Err(er) => next_token_at(s2, i + d) == Err::<(TokenModel, int), LexErrorModel>(
                LexErrorModel { kind: er.kind, position: er.position + d },
            ),
        }),
{
    assert(s2[i + d] == s1[i]);
    let c = s1[i];
    if is_ident_start(c) {
        lemma_ident_end_shift(s1, s2, d, i + 1);
        lemma_ident_end(s1, i + 1);
        let e = ident_end(s1, i + 1);
        assert(s2.subrange(i + d, e + d) =~= s1.subrange(i, e));
    } else if is_digit(c) {
        lemma_digit_end_shift(s1, s2, d, i + 1);
        lemma_digit_end(s1, i + 1);
        let e = digit_end(s1, i + 1);
        assert(s2.subrange(i + d, e + d) =~= s1.subrange(i, e));
    } else if c == '"' {
        lemma_quote_end_shift(s1, s2, d, i + 1);
        lemma_quote_end(s1, i + 1);
        let q = quote_end(s1, i + 1);
        if q >= 0 {
            assert(s2.subrange(i + d, q + 1 + d) =~= s1.subrange(i, q + 1));
        } else {
            assert(quote_end(s2, i + d + 1) == -1);
            assert(next_token_at(s2, i + d) == Err::<(TokenModel, int), LexErrorModel>(
                LexErrorModel { kind: LexErrorKind::UnterminatedString, position: i + d },
            ));
        }
    } else if c == '-' {
        if i + 1 < s1.len() {
            assert(s2[i + 1 + d] == s1[i + 1]);
        }
        if i + 1 < s1.len() && s1[i + 1] == '>' {
            assert(s2.subrange(i + d, i + d + 2) =~= s1.subrange(i, i + 2));
        } else {
            assert(s2.subrange(i + d, i + d + 1) =~= s1.subrange(i, i + 1));
        }
    } else if c == ':' {
        if i + 1 < s1.len() {
            assert(s2[i + 1 + d] == s1[i + 1]);
        }
        if i + 1 < s1.len() && s1[i + 1] == '=' {
            assert(s2.subrange(i + d, i + d + 2) =~= s1.subrange(i, i + 2));
        } else {
            assert(s2.subrange(i + d, i + d + 1) =~= s1.subrange(i, i + 1));
        }
    } else {
        assert(s2.subrange(i + d, i + d + 1) =~= s1.subrange(i, i + 1));
        if single_char_kind(c) is None {
            assert(next_token_at(s2, i + d) == Err::<(TokenModel, int), LexErrorModel>(
                LexErrorModel { kind: LexErrorKind::UnexpectedCharacter, position: i + d },
            ));
        }
    }
}

/// Under a right shift by `d` of the suffix, the whole scan from `i + d`
/// yields the same outcome with every position displaced by `d`.
#[verifier::rlimit(50)]
proof fn lemma_lex_from_shift(s1: Seq<char>, s2: Seq<char>, d: int, i: int)
    requires
        0 <= i <= s1.len(),
        0 <= d,
        s2.len() == s1.len() + d,
        forall|k: int| i <= k < s1.len() ==> s2[k + d] == #[trigger] s1[k],
    ensures
        (match lex_from(s1, i) {
            Ok(toks) => lex_from(s2, i + d) == Ok::<Seq<TokenModel>, LexErrorModel>(
                shift_tokens(toks, d),
            ),
            Err(er) => lex_from(s2, i + d) == Err::<Seq<TokenModel>, LexErrorModel>(
                LexErrorModel { kind: er.kind, position: er.position + d },
            ),
        }),
    decreases s1.len() - i,
{
    if i >= s1.len() {
        assert(lex_from(s2, i + d) == Ok::<Seq<TokenModel>, LexErrorModel>(
            Seq::<TokenModel>::empty(),
        ));
        assert(shift_tokens(Seq::<TokenModel>::empty(), d) =~= Seq::<TokenModel>::empty());
    } else if is_whitespace(s1[i]) {
        assert(s2[i + d] == s1[i]);
        lemma_lex_from_shift(s1, s2, d, i + 1);
    } else {
        assert(s2[i + d] == s1[i]);
        lemma_next_token_shift(s1, s2, d, i);
        lemma_next_token_at(s1, i);
        match next_token_at(s1, i) {
            Err(_) => {
            },
            Ok((t, e)) => {
                lemma_lex_from_shift(s1, s2, d, e);
                match lex_from(s1, e) {
                    Err(_) => {
                    },
                    Ok(rest) => {
                        let t2 = TokenModel {
                            kind: t.kind,
                            text: t.text,
                            position: t.position + d,
                        };
                        assert(lex_from(s2, i + d) == Ok::<Seq<TokenModel>, LexErrorModel>(
                            seq![t2] + shift_tokens(rest, d),
                        ));
                        assert(seq![t2] + shift_tokens(rest, d) =~= shift_tokens(
                            seq![t] + rest,
                            d,
                        ));
                    },
                }
            },
        }
    }
}

/// `s2` is `s1` with the one character `w` inserted at position `p`.
pub open spec fn inserted_at(s1: Seq<char>, s2: Seq<char>, p: int, w: char) -> bool {
    &&& 0 <= p <= s1.len()
    &&& s2.len() == s1.len() + 1
    &&& (forall|k: int| 0 <= k < p ==> #[trigger] s2[k] == s1[k])
    &&& s2[p] == w
    &&& (forall|k: int| p <= k < s1.len() ==> s2[k + 1] == #[trigger] s1[k])
}

/// Inserting a whitespace character after the end of the token scanned at
/// `i` leaves that scan unchanged: whitespace continues no identifier or
/// digit run, closes no string, and completes neither `->` nor `:=`.
#[verifier::rlimit(50)]
proof fn lemma_next_token_insert(
    s1: Seq<char>,
    s2: Seq<char>,
    p: int,
    w: char,
    i: int,
    t: TokenModel,
    e: int,
)
    requires
        inserted_at(s1, s2, p, w),
        is_whitespace(w),
        0 <= i < p,
        next_token_at(s1, i) == Ok::<(TokenModel, int), LexErrorModel>((t, e)),
        e <= p,
    ensures
        next_token_at(s2, i) == Ok::<(TokenModel, int), LexErrorModel>((t, e)),
{
    lemma_next_token_at(s1, i);
    assert(s2[i] == s1[i]);
    let c = s1[i];
    if is_ident_start(c) {
        lemma_ident_end(s1, i + 1);
        let e1 = ident_end(s1, i + 1);
        assert(forall|k: int| i + 1 <= k < e1 ==> #[trigger] s2[k] == s1[k]);
        if e1 < p {
            assert(s2[e1] == s1[e1]);
        }
        assert(e1 < s2.len() ==> !is_ident_continue(s2[e1]));
        lemma_ident_end_exact(s2, i + 1, e1);
        assert(s2.subrange(i, e1) =~= s1.subrange(i, e1));
    } else if is_digit(c) {
        lemma_digit_end(s1, i + 1);
        let e1 = digit_end(s1, i + 1);
        assert(forall|k: int| i + 1 <= k < e1 ==> #[trigger] s2[k] == s1[k]);
        if e1 < p {
            assert(s2[e1] == s1[e1]);
        }
        assert(e1 < s2.len() ==> !is_digit(s2[e1]));
        lemma_digit_end_exact(s2, i + 1, e1);
        assert(s2.subrange(i, e1) =~= s1.subrange(i, e1));
    } else if c == '"' {
        lemma_quote_end(s1, i + 1);
        let q = quote_end(s1, i + 1);
        assert(q >= 0);
        assert(forall|k: int| i + 1 <= k < q ==> #[trigger] s2[k] == s1[k]);
        assert(s2[q] == s1[q]);
        lemma_quote_end_exact(s2, i + 1, q);
        assert(s2.subrange(i, q + 1) =~= s1.subrange(i, q + 1));
    } else if c == '-' {
        if i + 1 < s1.len() && s1[i + 1] == '>' {
            assert(s2[i + 1] == s1[i + 1]);
            assert(s2.subrange(i, i + 2) =~= s1.subrange(i, i + 2));
        } else {
            if i + 1 < p {
                assert(s2[i + 1] == s1[i + 1]);
            }
            assert(s2[i + 1] != '>');
            assert(s2.subrange(i, i + 1) =~= s1.subrange(i, i + 1));
        }
    } else if c == ':' {
        if i + 1 < s1.len() && s1[i + 1] == '=' {
            assert(s2[i + 1] == s1[i + 1]);
            assert(s2.subrange(i, i + 2) =~= s1.subrange(i, i + 2));
        } else {
            if i + 1 < p {
                assert(s2[i + 1] == s1[i + 1]);
            }
            assert(s2[i + 1] != '=');
            assert(s2.subrange(i, i + 1) =~= s1.subrange(i, i + 1));
        }
    } else {
        assert(s2.subrange(i, i + 1) =~= s1.subrange(i, i + 1));
    }
}

/// `toks` with every position at or after `p` moved right by one.
pub open spec fn bump_tokens_from(toks: Seq<TokenModel>, p: int) -> Seq<TokenModel> {
    toks.map_values(
        |t: TokenModel| TokenModel {
            kind: t.kind,
            text: t.text,
            position: if t.position >= p { t.position + 1 } else { t.position },
        },
    )
}

/// Inserting one whitespace character at a point that lies strictly inside
/// no token changes nothing of a successful scan but the positions at or
/// after that point, which move right by one.
#[verifier::rlimit(50)]
proof fn lemma_lex_from_insert(
    s1: Seq<char>,
    s2: Seq<char>,
    p: int,
    w: char,
    i: int,
    toks: Seq<TokenModel>,
)
    requires
        inserted_at(s1, s2, p, w),
        is_whitespace(w),
        0 <= i <= p,
        lex_from(s1, i) == Ok::<Seq<TokenModel>, LexErrorModel>(toks),
        forall|k: int|
            0 <= k < toks.len() ==> p <= (#[trigger] toks[k]).position || toks[k].position
                + toks[k].text.len() <= p,
    ensures
        lex_from(s2, i) == Ok::<Seq<TokenModel>, LexErrorModel>(bump_tokens_from(toks, p)),
    decreases s1.len() - i,
{
    if i == p {
        assert(p < s2.len());
        assert(lex_from(s2, p) == lex_from(s2, p + 1));
        lemma_lex_from_shift(s1, s2, 1, p);
        lemma_lex_from_wf(s1, p);
        assert(bump_tokens_from(toks, p) =~= shift_tokens(toks, 1));
    } else {
        assert(s2[i] == s1[i]);
        if is_whitespace(s1[i]) {
            lemma_lex_from_insert(s1, s2, p, w, i + 1, toks);
        } else {
            match next_token_at(s1, i) {
                Err(_) => {
                },
                Ok((t, e)) => {
                    lemma_next_token_at(s1, i);
                    match lex_from(s1, e) {
                        Err(_) => {
                        },
                        Ok(rest) => {
                            assert(toks == seq![t] + rest);
                            assert(toks[0] == t);
                            assert(t.position == i && t.text.len() == e - i);
                            assert(e <= p);
                            lemma_next_token_insert(s1, s2, p, w, i, t, e);
                            assert(forall|k: int|
                                0 <= k < rest.len() ==> #[trigger] rest[k] == toks[k + 1]);
                            lemma_lex_from_insert(s1, s2, p, w, e, rest);
                            assert(lex_from(s2, i) == Ok::<Seq<TokenModel>, LexErrorModel>(
                                seq![t] + bump_tokens_from(rest, p),
                            ));
                            assert(seq![t] + bump_tokens_from(rest, p) =~= bump_tokens_from(
                                toks,
                                p,
                            ));
                        },
                    }
                },
            }
        }
    }
}

/// Whitespace-insensitivity: inserting one whitespace character at a point
/// that lies strictly inside no token of a successful scan leaves every
/// token's kind and text unchanged; only the positions at or after the
/// insertion point move, by one. Read from right to left, the same
/// equality covers removing such a whitespace character; a whole run of
/// whitespace follows by repeated application.
pub proof fn lemma_whitespace_insensitive(s: Seq<char>, toks: Seq<TokenModel>, p: int, w: char)
    requires
        is_whitespace(w),
        0 <= p <= s.len(),
        lex_spec(s) == Ok::<Seq<TokenModel>, LexErrorModel>(toks),
        forall|k: int|
            0 <= k < toks.len() ==> p <= (#[trigger] toks[k]).position || toks[k].position
                + toks[k].text.len() <= p,
    ensures
        lex_spec(s.insert(p, w)) == Ok::<Seq<TokenModel>, LexErrorModel>(
            bump_tokens_from(toks, p),
        ),
        bump_tokens_from(toks, p).len() == toks.len(),
        forall|k: int|
            0 <= k < toks.len() ==> (#[trigger] bump_tokens_from(toks, p)[k]).kind
                == toks[k].kind && bump_tokens_from(toks, p)[k].text == toks[k].text,
{
    s.insert_ensures(p, w);
    assert(inserted_at(s, s.insert(p, w), p, w));
    lemma_lex_from_insert(s, s.insert(p, w), p, w, 0, toks);
}

} // verus!
