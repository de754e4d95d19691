//! Glob-style pattern matching on strings, verified with Verus.
//!
//! A pattern is a string in which `*` stands for zero or more arbitrary
//! characters, `?` stands for exactly one arbitrary character, and `\*`,
//! `\?` and `\\` stand for the literal characters `*`, `?` and `\`.
//! A pattern matches a candidate string "partially" when it occurs anywhere
//! inside the candidate, without having to cover the whole candidate.
//!
//! Parsing a pattern yields a sequence of tokens (wildcards and literals);
//! matching walks that token sequence over the candidate string with
//! backtracking. Both stages carry contracts: the parser is proved to
//! implement the specification-level tokenizer [`glob_parser::spec_parse`],
//! and the matcher is proved to decide the specification-level predicate
//! [`spec_matches_partially`].

use vstd::prelude::*;

pub mod glob_parser;
pub mod multislice;

pub use glob_parser::GlobParseError;
use glob_parser::Token;
use glob_parser::TokenModel;
use glob_parser::is_wildcard_model;
use glob_parser::lemma_parse_normalized;
use glob_parser::model_min_len;
use glob_parser::parse_glob_string;
use glob_parser::spec_parse;
use glob_parser::token_models;
use glob_parser::tokens_wf;
use multislice::is_occurrence;
use vstd::slice::slice_subrange;
use vstd::string::StrSliceExecFns;

verus! {

/// The token sequence, starting at `toks[0]`, matches `s` anchored at its
/// first character: each token in turn consumes a prefix of what remains.
/// Characters of `s` left over after the last token are permitted.
pub open spec fn spec_matches_at_start(toks: Seq<TokenModel>, s: Seq<char>) -> bool
    decreases toks.len(),
{
    if toks.len() == 0 {
        true
    } else {
        match toks[0] {
            TokenModel::ExactWildcard { len } => s.len() >= len && spec_matches_at_start(
                toks.drop_first(),
                s.skip(len as int),
            ),
            TokenModel::MinWildcard { min } => s.len() >= min && spec_matches_partially(
                toks.drop_first(),
                s.skip(min as int),
            ),
            TokenModel::Literal { content } => content.is_prefix_of(s) && spec_matches_at_start(
                toks.drop_first(),
                s.skip(content.len() as int),
            ),
        }
    }
}

/// The token sequence matches somewhere in `s`: a leading wildcard consumes
/// its minimum from the current position (arbitrary skipping ahead is already
/// implied by the unanchored reading), and a leading literal may be anchored
/// at any of its occurrences in `s`.
pub open spec fn spec_matches_partially(toks: Seq<TokenModel>, s: Seq<char>) -> bool
    decreases toks.len(),
{
    if toks.len() == 0 {
        true
    } else {
        match toks[0] {
            TokenModel::ExactWildcard { len } => s.len() >= len && spec_matches_partially(
                toks.drop_first(),
                s.skip(len as int),
            ),
            TokenModel::MinWildcard { min } => s.len() >= min && spec_matches_partially(
                toks.drop_first(),
                s.skip(min as int),
            ),
            TokenModel::Literal { content } => exists|p: int|
                is_occurrence(content, s, p) && spec_matches_at_start(
                    toks.drop_first(),
                    s.skip(p + content.len()),
                ),
        }
    }
}

/// Decides [`spec_matches_at_start`]: the token sequence must match `string`
/// anchored at its first character.
pub fn token_sequence_matches_at_start(token_sequence: &[Token], string: &str) -> (r: bool)
    requires
        tokens_wf(token_sequence@),
    ensures
        r == spec_matches_at_start(token_models(token_sequence@), string@),
    decreases token_sequence@.len(),
{
    if token_sequence.len() == 0 {
        return true;
    }
    let token = &token_sequence[0];
    let rest = slice_subrange(token_sequence, 1, token_sequence.len());
    proof {
        assert(token_models(rest@) =~= token_models(token_sequence@).drop_first());
    }
    let string_len = string.unicode_len();
    match token {
        Token::ExactLengthWildcard(length) => {
            if string_len >= *length {
                token_sequence_matches_at_start(rest, string.substring_char(*length, string_len))
            } else {
                false
            }
        },
        Token::MinLengthWildcard(length) => {
            if string_len >= *length {
                token_sequence_matches_partially(rest, string.substring_char(*length, string_len))
            } else {
                false
            }
        },
        Token::Literal(literal) => {
            if literal.matches_string_start(string) {
                let combined_length = literal.get_combined_length();
                token_sequence_matches_at_start(
                    rest,
                    string.substring_char(combined_length, string_len),
                )
            } else {
                false
            }
        },
    }
}

/// One matching occurrence of a leading literal suffices for an unanchored
/// match of the whole sequence.
proof fn lemma_partial_match_witness(toks: Seq<TokenModel>, s: Seq<char>, p: int)
    requires
        toks.len() > 0,
        toks[0] is Literal,
        is_occurrence(toks[0]->content, s, p),
        spec_matches_at_start(toks.drop_first(), s.skip(p + toks[0]->content.len())),
    ensures
        spec_matches_partially(toks, s),
{
}

/// Decides [`spec_matches_partially`]: the token sequence may match
/// anywhere in `string`. A leading literal is tried at each of its
/// occurrences in turn, backtracking until one position lets the remaining
/// tokens match.
#[verifier::loop_isolation(false)]
pub fn token_sequence_matches_partially(tokens: &[Token], string: &str) -> (r: bool)
    requires
        tokens_wf(tokens@),
    ensures
        r == spec_matches_partially(token_models(tokens@), string@),
    decreases tokens@.len(),
{
    if tokens.len() == 0 {
        return true;
    }
    let token = &tokens[0];
    let rest = slice_subrange(tokens, 1, tokens.len());
    proof {
        assert(token_models(rest@) =~= token_models(tokens@).drop_first());
    }
    let string_len = string.unicode_len();
    match token {
        Token::MinLengthWildcard(length) | Token::ExactLengthWildcard(length) => {
            if string_len >= *length {
                token_sequence_matches_partially(rest, string.substring_char(*length, string_len))
            } else {
                false
            }
        },
        Token::Literal(literal) => {
            let ghost content = literal.content();
            let combined_length = literal.get_combined_length();
            let mut occurrences = literal.find_all_occurences_in(string);
            loop
                invariant
                    occurrences.wf(),
                    occurrences.pattern_content() == content,
                    occurrences.target() == string@,
                    forall|q: int|
                        is_occurrence(content, string@, q) && (occurrences.done() || q
                            < occurrences.cursor()) ==> !spec_matches_at_start(
                            token_models(tokens@).drop_first(),
                            string@.skip(q + content.len()),
                        ),
                decreases (if occurrences.done() {
                    0int
                } else {
                    string@.len() + 1 - occurrences.cursor()
                }),
            {
                match occurrences.next() {
                    None => {
                        proof {
                            assert(!spec_matches_partially(token_models(tokens@), string@));
                        }
                        return false;
                    },
                    Some(position) => {
                        if token_sequence_matches_at_start(
                            rest,
                            string.substring_char(position + combined_length, string_len),
                        ) {
                            proof {
                                assert(string@.subrange(
                                    position + combined_length,
                                    string_len as int,
                                ) =~= string@.skip(position + content.len()));
                                assert(token_models(tokens@)[0] == TokenModel::Literal {
                                    content,
                                });
                                lemma_partial_match_witness(
                                    token_models(tokens@),
                                    string@,
                                    position as int,
                                );
                            }
                            return true;
                        }
                    },
                }
            }
        },
    }
}

/// The result of successfully parsing a glob pattern: an opaque owner of
/// the pattern's token sequence, ready to be matched against any number of
/// candidate strings.
#[derive(Debug)]
pub struct ParsedGlobString {
    tokens: Vec<Token>,
}

impl ParsedGlobString {
    /// The shapes of the tokens this pattern parsed to.
    pub closed spec fn token_seq(&self) -> Seq<TokenModel> {
        token_models(self.tokens@)
    }

    /// Every token carries a well-formed fragment buffer.
    pub closed spec fn wf(&self) -> bool {
        tokens_wf(self.tokens@)
    }

    /// Parses `string` and returns the parsed pattern, or the parse error.
    pub fn try_from(string: &str) -> (r: Result<ParsedGlobString, GlobParseError>)
        ensures
            match r {
                Ok(parsed) => {
                    &&& spec_parse(string@) matches Ok(models) && parsed.token_seq() == models
                    &&& parsed.wf()
                },
                Err(e) => spec_parse(string@) matches Err(model) && e.model() == model,
            },
    {
        match parse_glob_string(string) {
            Ok(tokens) => Ok(ParsedGlobString { tokens }),
            Err(e) => Err(e),
        }
    }

    /// Checks whether this pattern occurs anywhere in the given string.
    pub fn matches_partially(&self, string: &str) -> (r: bool)
        requires
            self.wf(),
        ensures
            r == spec_matches_partially(self.token_seq(), string@),
    {
        token_sequence_matches_partially(self.tokens.as_slice(), string)
    }
}

/// A token that places no demand at all on the candidate string: a
/// wildcard whose minimum required length is zero.
pub open spec fn is_zero_min_wildcard(m: TokenModel) -> bool {
    is_wildcard_model(m) && model_min_len(m) == 0
}

/// A token sequence without empty literals matches the empty string
/// exactly when every one of its tokens is a wildcard whose minimum
/// required length is zero.
pub proof fn lemma_empty_match_iff_all_zero_wildcards(toks: Seq<TokenModel>)
    requires
        forall|j: int|
            0 <= j < toks.len() && toks[j] is Literal ==> (#[trigger] toks[j])->content.len() > 0,
    ensures
        spec_matches_partially(toks, Seq::<char>::empty()) <==> (forall|j: int|
            0 <= j < toks.len() ==> is_zero_min_wildcard(#[trigger] toks[j])),
    decreases toks.len(),
{
    let s = Seq::<char>::empty();
    if toks.len() > 0 {
        let rest = toks.drop_first();
        assert(forall|j: int| 0 <= j < rest.len() ==> rest[j] == toks[j + 1]);
        lemma_empty_match_iff_all_zero_wildcards(rest);
        match toks[0] {
            TokenModel::ExactWildcard { len } => {
                if len == 0 {
                    assert(s.skip(0) =~= s);
                }
            },
            TokenModel::MinWildcard { min } => {
                if min == 0 {
                    assert(s.skip(0) =~= s);
                }
            },
            TokenModel::Literal { content } => {
                assert(!is_zero_min_wildcard(toks[0]));
                assert forall|p: int| !is_occurrence(content, s, p) by {
                    if 0 <= p <= s.len() {
                        assert(s.skip(p) =~= Seq::<char>::empty());
                    }
                }
            },
        }
        if spec_matches_partially(toks, s) {
            assert(forall|j: int| 0 <= j < toks.len() ==> is_zero_min_wildcard(#[trigger] toks[j]))
                by {
                assert forall|j: int| 0 <= j < toks.len() implies is_zero_min_wildcard(
                    #[trigger] toks[j],
                ) by {
                    if j > 0 {
                        assert(toks[j] == rest[j - 1]);
                    }
                }
            }
        }
    }
}

/// A pattern that parses successfully matches the empty string exactly
/// when its token sequence consists entirely of wildcards with minimum
/// required length zero (in particular, the empty pattern does).
pub proof fn lemma_parsed_pattern_matches_empty_string(pattern: Seq<char>)
    ensures
        spec_parse(pattern) matches Ok(toks) ==> (spec_matches_partially(
            toks,
            Seq::<char>::empty(),
        ) <==> (forall|j: int| 0 <= j < toks.len() ==> is_zero_min_wildcard(#[trigger] toks[j]))),
{
    lemma_parse_normalized(pattern);
    match spec_parse(pattern) {
        Ok(toks) => {
            lemma_empty_match_iff_all_zero_wildcards(toks);
        },
        Err(_) => {},
    }
}

/// Checks whether the given pattern occurs anywhere in the given string,
/// parsing the pattern freshly; returns the parse error if the pattern is
/// not well-formed.
pub fn pattern_matches_partially(pattern: &str, string: &str) -> (r: Result<
    bool,
    GlobParseError,
>)
    ensures
        match r {
            Ok(matched) => spec_parse(pattern@) matches Ok(models) && matched
                == spec_matches_partially(models, string@),
            Err(e) => spec_parse(pattern@) matches Err(model) && e.model() == model,
        },
{
    match ParsedGlobString::try_from(pattern) {
        Ok(parsed) => Ok(parsed.matches_partially(string)),
        Err(e) => Err(e),
    }
}

} // verus!
