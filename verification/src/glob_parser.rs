//! The tokenizer: from a raw pattern string to a merged token sequence.
//!
//! A pattern is read left to right. `*` and `?` become wildcard tokens,
//! escape sequences are resolved, and runs of ordinary characters become
//! literal tokens backed by a fragment buffer. Adjacent wildcards merge
//! arithmetically and adjacent literal runs merge into one buffer, so a
//! parsed token sequence never carries two neighbouring tokens of the same
//! kind. The whole process is specified by [`spec_parse`], a mathematical
//! transition function over the pattern's characters, and the executable
//! parser is proved to return exactly its result.

use vstd::prelude::*;

use crate::multislice::MultiSlice;

verus! {

/// One token of a parsed pattern.
#[derive(Debug)]
pub enum Token {
    /// Matches exactly this many arbitrary characters (from `?`).
    ExactLengthWildcard(usize),
    /// Matches at least this many arbitrary characters (from `*`).
    MinLengthWildcard(usize),
    /// Matches exactly the content of the fragment buffer.
    Literal(MultiSlice),
}

/// The mathematical shape of a token: lengths as naturals and a literal as
/// its bare character sequence, forgetting fragment boundaries.
pub enum TokenModel {
    ExactWildcard { len: nat },
    MinWildcard { min: nat },
    Literal { content: Seq<char> },
}

impl Token {
    /// The mathematical shape of this token.
    pub open spec fn model(&self) -> TokenModel {
        match self {
            Token::ExactLengthWildcard(n) => TokenModel::ExactWildcard { len: *n as nat },
            Token::MinLengthWildcard(n) => TokenModel::MinWildcard { min: *n as nat },
            Token::Literal(ms) => TokenModel::Literal { content: ms.content() },
        }
    }

    /// A literal token must carry a well-formed fragment buffer.
    pub open spec fn wf(&self) -> bool {
        self matches Token::Literal(ms) ==> ms.wf()
    }
}

/// The shapes of a whole token sequence.
pub open spec fn token_models(toks: Seq<Token>) -> Seq<TokenModel> {
    Seq::new(toks.len(), |i: int| toks[i].model())
}

/// Every token in the sequence is well-formed.
pub open spec fn tokens_wf(toks: Seq<Token>) -> bool {
    forall|i: int| 0 <= i < toks.len() ==> (#[trigger] toks[i]).wf()
}

/// Returned when parsing a pattern fails. Both kinds carry the character
/// index at which the problem was detected in the pattern.
#[derive(Debug)]
pub enum GlobParseError {
    /// An escape character followed by anything other than `*`, `?` or the
    /// escape character itself; carries the index of the escape character
    /// and the offending two-character escape sequence.
    UnknownEscapeSequence(usize, String),
    /// An escape character at the very end of the pattern; carries the index
    /// of the dangling escape character.
    UnterminatedEscapeSequence(usize),
}

/// The mathematical shape of a parse error.
pub enum ErrorModel {
    UnknownEscape { index: int, text: Seq<char> },
    UnterminatedEscape { index: int },
}

impl GlobParseError {
    /// The mathematical shape of this error.
    pub open spec fn model(&self) -> ErrorModel {
        match self {
            GlobParseError::UnknownEscapeSequence(index, text) => ErrorModel::UnknownEscape {
                index: *index as int,
                text: text@,
            },
            GlobParseError::UnterminatedEscapeSequence(index) => ErrorModel::UnterminatedEscape {
                index: *index as int,
            },
        }
    }
}

impl PartialEq for GlobParseError {
    /// Two parse errors are equal when they report the same kind of problem
    /// at the same index with the same escape-sequence text.
    fn eq(&self, other: &Self) -> (r: bool) {
        match (self, other) {
            (
                GlobParseError::UnknownEscapeSequence(i1, t1),
                GlobParseError::UnknownEscapeSequence(i2, t2),
            ) => *i1 == *i2 && *t1 == *t2,
            (
                GlobParseError::UnterminatedEscapeSequence(i1),
                GlobParseError::UnterminatedEscapeSequence(i2),
            ) => *i1 == *i2,
            _ => false,
        }
    }
}

impl vstd::std_specs::cmp::PartialEqSpecImpl for GlobParseError {
    open spec fn obeys_eq_spec() -> bool {
        true
    }

    open spec fn eq_spec(&self, other: &Self) -> bool {
        self.model() == other.model()
    }
}

impl PartialEq for Token {
    /// Two tokens are equal when they have the same shape: equal wildcard
    /// lengths, or literal contents that concatenate to the same characters.
    fn eq(&self, other: &Self) -> (r: bool) {
        match (self, other) {
            (Token::ExactLengthWildcard(a), Token::ExactLengthWildcard(b)) => *a == *b,
            (Token::MinLengthWildcard(a), Token::MinLengthWildcard(b)) => *a == *b,
            (Token::Literal(x), Token::Literal(y)) => x == y,
            _ => false,
        }
    }
}

impl vstd::std_specs::cmp::PartialEqSpecImpl for Token {
    open spec fn obeys_eq_spec() -> bool {
        true
    }

    open spec fn eq_spec(&self, other: &Self) -> bool {
        self.model() == other.model()
    }
}

/// A token is a wildcard (of either kind).
pub open spec fn is_wildcard_model(m: TokenModel) -> bool {
    m is ExactWildcard || m is MinWildcard
}

/// The fewest characters a single token can consume: the length bound of a
/// wildcard, or the length of a literal's content.
pub open spec fn model_min_len(m: TokenModel) -> nat {
    match m {
        TokenModel::ExactWildcard { len } => len,
        TokenModel::MinWildcard { min } => min,
        TokenModel::Literal { content } => content.len(),
    }
}

/// The wildcard token a single metacharacter stands for: `*` matches zero
/// or more characters, `?` matches exactly one.
pub open spec fn spec_wildcard_token(c: char) -> TokenModel {
    if c == '*' {
        TokenModel::MinWildcard { min: 0 }
    } else {
        TokenModel::ExactWildcard { len: 1 }
    }
}

/// Merges two adjacent wildcards into one: two exact-length wildcards add
/// up to an exact-length wildcard, and any combination involving a
/// minimum-length wildcard adds up to a minimum-length wildcard.
pub open spec fn spec_merge_wildcards(m1: TokenModel, m2: TokenModel) -> TokenModel {
    if m1 is ExactWildcard && m2 is ExactWildcard {
        TokenModel::ExactWildcard { len: model_min_len(m1) + model_min_len(m2) }
    } else {
        TokenModel::MinWildcard { min: model_min_len(m1) + model_min_len(m2) }
    }
}

/// Appends a wildcard to a token sequence, merging it into a trailing
/// wildcard if there is one.
pub open spec fn spec_append_wildcard(toks: Seq<TokenModel>, m: TokenModel) -> Seq<TokenModel> {
    if toks.len() > 0 && is_wildcard_model(toks.last()) {
        toks.drop_last().push(spec_merge_wildcards(toks.last(), m))
    } else {
        toks.push(m)
    }
}

/// Appends a literal run to a token sequence, merging it into a trailing
/// literal if there is one.
pub open spec fn spec_append_literal(toks: Seq<TokenModel>, lit: Seq<char>) -> Seq<TokenModel> {
    if toks.len() > 0 && toks.last() is Literal {
        toks.drop_last().push(TokenModel::Literal { content: toks.last()->content + lit })
    } else {
        toks.push(TokenModel::Literal { content: lit })
    }
}

/// The tokenizer's state between two characters of the pattern.
pub enum ParserStateModel {
    /// Ready for the next token.
    ExpectNew,
    /// Accumulating a literal run that covers the characters from `start`
    /// (inclusive) to `end` (exclusive).
    InLiteral { start: int, end: int },
    /// The previous character was an unconsumed escape character.
    ExpectEscaped,
}

/// One left-to-right pass of the tokenizer over `s`, starting at character
/// `i` in the given state with the tokens accumulated so far. This is the
/// transition function the executable parser is proved to implement.
pub open spec fn spec_parse_from(
    s: Seq<char>,
    i: int,
    state: ParserStateModel,
    acc: Seq<TokenModel>,
) -> Result<Seq<TokenModel>, ErrorModel>
    decreases s.len() - i,
{
    if i >= s.len() {
        match state {
            ParserStateModel::ExpectNew => Ok(acc),
            ParserStateModel::InLiteral { start, end } => Ok(
                spec_append_literal(acc, s.subrange(start, end)),
            ),
            ParserStateModel::ExpectEscaped => Err(
                ErrorModel::UnterminatedEscape { index: s.len() - 1 },
            ),
        }
    } else {
        let c = s[i];
        if c == '*' || c == '?' {
            match state {
                ParserStateModel::ExpectNew => spec_parse_from(
                    s,
                    i + 1,
                    ParserStateModel::ExpectNew,
                    spec_append_wildcard(acc, spec_wildcard_token(c)),
                ),
                ParserStateModel::InLiteral { start, end } => spec_parse_from(
                    s,
                    i + 1,
                    ParserStateModel::ExpectNew,
                    spec_append_literal(acc, s.subrange(start, end)).push(spec_wildcard_token(c)),
                ),
                ParserStateModel::ExpectEscaped => spec_parse_from(
                    s,
                    i + 1,
                    ParserStateModel::InLiteral { start: i, end: i + 1 },
                    acc,
                ),
            }
        } else if c == '\\' {
            match state {
                ParserStateModel::ExpectNew => spec_parse_from(
                    s,
                    i + 1,
                    ParserStateModel::ExpectEscaped,
                    acc,
                ),
                ParserStateModel::InLiteral { start, end } => spec_parse_from(
                    s,
                    i + 1,
                    ParserStateModel::ExpectEscaped,
                    spec_append_literal(acc, s.subrange(start, end)),
                ),
                ParserStateModel::ExpectEscaped => spec_parse_from(
                    s,
                    i + 1,
                    ParserStateModel::InLiteral { start: i, end: i + 1 },
                    acc,
                ),
            }
        } else {
            match state {
                ParserStateModel::ExpectNew => spec_parse_from(
                    s,
                    i + 1,
                    ParserStateModel::InLiteral { start: i, end: i + 1 },
                    acc,
                ),
                ParserStateModel::InLiteral { start, end } => spec_parse_from(
                    s,
                    i + 1,
                    ParserStateModel::InLiteral { start, end: i + 1 },
                    acc,
                ),
                ParserStateModel::ExpectEscaped => Err(
                    ErrorModel::UnknownEscape { index: i - 1, text: s.subrange(i - 1, i + 1) },
                ),
            }
        }
    }
}

/// The specification-level tokenizer: the token sequence (or error) that
/// parsing the pattern `s` must produce.
pub open spec fn spec_parse(s: Seq<char>) -> Result<Seq<TokenModel>, ErrorModel> {
    spec_parse_from(s, 0, ParserStateModel::ExpectNew, Seq::empty())
}

/// The sum of every token's minimum consumption; the parser keeps it
/// bounded by the number of characters read so far.
pub open spec fn models_total_size(toks: Seq<TokenModel>) -> nat
    decreases toks.len(),
{
    if toks.len() == 0 {
        0
    } else {
        models_total_size(toks.drop_last()) + model_min_len(toks.last())
    }
}

proof fn lemma_total_size_push(toks: Seq<TokenModel>, m: TokenModel)
    ensures
        models_total_size(toks.push(m)) == models_total_size(toks) + model_min_len(m),
{
    assert(toks.push(m).drop_last() =~= toks);
}

proof fn lemma_total_size_append_wildcard(toks: Seq<TokenModel>, m: TokenModel)
    ensures
        models_total_size(spec_append_wildcard(toks, m)) == models_total_size(toks)
            + model_min_len(m),
{
    if toks.len() > 0 && is_wildcard_model(toks.last()) {
        lemma_total_size_push(toks.drop_last(), spec_merge_wildcards(toks.last(), m));
        assert(models_total_size(toks) == models_total_size(toks.drop_last()) + model_min_len(
            toks.last(),
        ));
    } else {
        lemma_total_size_push(toks, m);
    }
}

proof fn lemma_total_size_append_literal(toks: Seq<TokenModel>, lit: Seq<char>)
    ensures
        models_total_size(spec_append_literal(toks, lit)) == models_total_size(toks) + lit.len(),
{
    if toks.len() > 0 && toks.last() is Literal {
        lemma_total_size_push(
            toks.drop_last(),
            TokenModel::Literal { content: toks.last()->content + lit },
        );
        assert(models_total_size(toks) == models_total_size(toks.drop_last()) + model_min_len(
            toks.last(),
        ));
    } else {
        lemma_total_size_push(toks, TokenModel::Literal { content: lit });
    }
}

/// Translates a single wildcard metacharacter into its token.
fn wildcard_for_character(c: char) -> (r: Token)
    requires
        c == '*' || c == '?',
    ensures
        r.model() == spec_wildcard_token(c),
        r.wf(),
{
    if c == '*' {
        Token::MinLengthWildcard(0)
    } else {
        Token::ExactLengthWildcard(1)
    }
}

/// Merges two adjacent wildcard tokens into one, adding their bounds.
fn merge_wildcard_tokens(token1: Token, token2: Token) -> (r: Token)
    requires
        is_wildcard_model(token1.model()),
        is_wildcard_model(token2.model()),
        model_min_len(token1.model()) + model_min_len(token2.model()) <= usize::MAX,
    ensures
        r.model() == spec_merge_wildcards(token1.model(), token2.model()),
        r.wf(),
{
    match (token1, token2) {
        (Token::ExactLengthWildcard(length1), Token::ExactLengthWildcard(length2)) => {
            Token::ExactLengthWildcard(length1 + length2)
        },
        (
            Token::ExactLengthWildcard(min_length1) | Token::MinLengthWildcard(min_length1),
            Token::ExactLengthWildcard(min_length2) | Token::MinLengthWildcard(min_length2),
        ) => Token::MinLengthWildcard(min_length1 + min_length2),
        (token1, _) => token1,
    }
}

/// Appends a wildcard token, merging it into a trailing wildcard token
/// rather than letting two wildcards stand side by side.
fn append_wildcard_to_token_sequence(token_sequence: &mut Vec<Token>, token: Token)
    requires
        tokens_wf(old(token_sequence)@),
        is_wildcard_model(token.model()),
        token_models(old(token_sequence)@).len() > 0 && is_wildcard_model(
            token_models(old(token_sequence)@).last(),
        ) ==> model_min_len(token_models(old(token_sequence)@).last()) + model_min_len(
            token.model(),
        ) <= usize::MAX,
    ensures
        tokens_wf(final(token_sequence)@),
        token_models(final(token_sequence)@) == spec_append_wildcard(
            token_models(old(token_sequence)@),
            token.model(),
        ),
{
    let ghost old_models = token_models(old(token_sequence)@);
    let last_token: Option<Token> = token_sequence.pop();
    match last_token {
        None => {
            token_sequence.push(token);
            proof {
                assert(token_models(token_sequence@) =~= old_models.push(token.model()));
            }
        },
        Some(last_token) => {
            if matches!(last_token, Token::Literal(_)) {
                token_sequence.push(last_token);
                token_sequence.push(token);
                proof {
                    assert(token_sequence@ =~= old(token_sequence)@.push(token));
                    assert(token_models(token_sequence@) =~= old_models.push(token.model()));
                }
            } else {
                let merged = merge_wildcard_tokens(last_token, token);
                token_sequence.push(merged);
                proof {
                    assert(token_models(token_sequence@) =~= old_models.drop_last().push(
                        merged.model(),
                    ));
                    assert(old_models.last() == last_token.model());
                }
            }
        },
    }
}

/// Appends a literal run, merging it into a trailing literal token as one
/// more fragment rather than letting two literals stand side by side.
fn append_literal_to_token_sequence(token_sequence: &mut Vec<Token>, literal: &str)
    requires
        tokens_wf(old(token_sequence)@),
        token_models(old(token_sequence)@).len() > 0 && token_models(
            old(token_sequence)@,
        ).last() is Literal ==> token_models(old(token_sequence)@).last()->content.len()
            + literal@.len() <= usize::MAX,
    ensures
        tokens_wf(final(token_sequence)@),
        token_models(final(token_sequence)@) == spec_append_literal(
            token_models(old(token_sequence)@),
            literal@,
        ),
{
    let ghost old_models = token_models(old(token_sequence)@);
    let n = token_sequence.len();
    let last_is_literal = if n > 0 {
        match &token_sequence[n - 1] {
            Token::Literal(_) => true,
            _ => false,
        }
    } else {
        false
    };
    if last_is_literal {
        let last_token: Option<Token> = token_sequence.pop();
        match last_token {
            Some(Token::Literal(mut multi_slice)) => {
                proof {
                    assert(old(token_sequence)@.last().wf());
                }
                multi_slice.push(literal);
                token_sequence.push(Token::Literal(multi_slice));
                proof {
                    assert(token_models(token_sequence@) =~= old_models.drop_last().push(
                        TokenModel::Literal { content: old_models.last()->content + literal@ },
                    ));
                }
            },
            Some(other) => {
                token_sequence.push(other);
            },
            None => {},
        }
    } else {
        token_sequence.push(Token::Literal(MultiSlice::from(literal)));
        proof {
            assert(token_models(token_sequence@) =~= old_models.push(
                TokenModel::Literal { content: literal@ },
            ));
        }
    }
}

/// A token sequence in which merging has been carried out exhaustively: no
/// two adjacent tokens are both wildcards, no two adjacent tokens are both
/// literals, and no literal is empty.
pub open spec fn tokens_normalized(toks: Seq<TokenModel>) -> bool {
    &&& forall|j: int|
        0 <= j < toks.len() && toks[j] is Literal ==> (#[trigger] toks[j])->content.len() > 0
    &&& forall|j: int|
        0 <= j && j + 1 < toks.len() ==> !(is_wildcard_model(#[trigger] toks[j])
            && is_wildcard_model(toks[j + 1]))
    &&& forall|j: int|
        0 <= j && j + 1 < toks.len() ==> !((#[trigger] toks[j]) is Literal && toks[j
            + 1] is Literal)
}

proof fn lemma_append_wildcard_normalized(toks: Seq<TokenModel>, m: TokenModel)
    requires
        tokens_normalized(toks),
        is_wildcard_model(m),
    ensures
        tokens_normalized(spec_append_wildcard(toks, m)),
        spec_append_wildcard(toks, m).len() > 0,
        is_wildcard_model(spec_append_wildcard(toks, m).last()),
{
    let r = spec_append_wildcard(toks, m);
    if toks.len() > 0 && is_wildcard_model(toks.last()) {
        assert(forall|j: int| 0 <= j < toks.len() - 1 ==> r[j] == toks[j]);
    } else {
        assert(forall|j: int| 0 <= j < toks.len() ==> r[j] == toks[j]);
    }
}

proof fn lemma_append_literal_normalized(toks: Seq<TokenModel>, lit: Seq<char>)
    requires
        tokens_normalized(toks),
        lit.len() > 0,
    ensures
        tokens_normalized(spec_append_literal(toks, lit)),
        spec_append_literal(toks, lit).len() > 0,
        spec_append_literal(toks, lit).last() is Literal,
{
    let r = spec_append_literal(toks, lit);
    if toks.len() > 0 && toks.last() is Literal {
        assert(forall|j: int| 0 <= j < toks.len() - 1 ==> r[j] == toks[j]);
    } else {
        assert(forall|j: int| 0 <= j < toks.len() ==> r[j] == toks[j]);
    }
}

proof fn lemma_push_wildcard_after_literal(toks: Seq<TokenModel>, m: TokenModel)
    requires
        tokens_normalized(toks),
        toks.len() > 0,
        toks.last() is Literal,
        is_wildcard_model(m),
    ensures
        tokens_normalized(toks.push(m)),
{
    let r = toks.push(m);
    assert(forall|j: int| 0 <= j < toks.len() ==> r[j] == toks[j]);
}

#[verifier::rlimit(60)]
proof fn lemma_parse_from_normalized(
    s: Seq<char>,
    i: int,
    state: ParserStateModel,
    acc: Seq<TokenModel>,
)
    requires
        0 <= i <= s.len(),
        tokens_normalized(acc),
        state matches ParserStateModel::InLiteral { start, end } ==> 0 <= start < end && end == i,
    ensures
        spec_parse_from(s, i, state, acc) matches Ok(m) ==> tokens_normalized(m),
    decreases s.len() - i,
{
    if i >= s.len() {
        match state {
            ParserStateModel::InLiteral { start, end } => {
                lemma_append_literal_normalized(acc, s.subrange(start, end));
            },
            _ => {},
        }
    } else {
        let c = s[i];
        if c == '*' || c == '?' {
            match state {
                ParserStateModel::ExpectNew => {
                    lemma_append_wildcard_normalized(acc, spec_wildcard_token(c));
                    lemma_parse_from_normalized(
                        s,
                        i + 1,
                        ParserStateModel::ExpectNew,
                        spec_append_wildcard(acc, spec_wildcard_token(c)),
                    );
                },
                ParserStateModel::InLiteral { start, end } => {
                    lemma_append_literal_normalized(acc, s.subrange(start, end));
                    lemma_push_wildcard_after_literal(
                        spec_append_literal(acc, s.subrange(start, end)),
                        spec_wildcard_token(c),
                    );
                    lemma_parse_from_normalized(
                        s,
                        i + 1,
                        ParserStateModel::ExpectNew,
                        spec_append_literal(acc, s.subrange(start, end)).push(
                            spec_wildcard_token(c),
                        ),
                    );
                },
                ParserStateModel::ExpectEscaped => {
                    lemma_parse_from_normalized(
                        s,
                        i + 1,
                        ParserStateModel::InLiteral { start: i, end: i + 1 },
                        acc,
                    );
                },
            }
        } else if c == '\\' {
            match state {
                ParserStateModel::ExpectNew => {
                    lemma_parse_from_normalized(s, i + 1, ParserStateModel::ExpectEscaped, acc);
                },
                ParserStateModel::InLiteral { start, end } => {
                    lemma_append_literal_normalized(acc, s.subrange(start, end));
                    lemma_parse_from_normalized(
                        s,
                        i + 1,
                        ParserStateModel::ExpectEscaped,
                        spec_append_literal(acc, s.subrange(start, end)),
                    );
                },
                ParserStateModel::ExpectEscaped => {
                    lemma_parse_from_normalized(
                        s,
                        i + 1,
                        ParserStateModel::InLiteral { start: i, end: i + 1 },
                        acc,
                    );
                },
            }
        } else {
            match state {
                ParserStateModel::ExpectNew => {
                    lemma_parse_from_normalized(
                        s,
                        i + 1,
                        ParserStateModel::InLiteral { start: i, end: i + 1 },
                        acc,
                    );
                },
                ParserStateModel::InLiteral { start, end } => {
                    lemma_parse_from_normalized(
                        s,
                        i + 1,
                        ParserStateModel::InLiteral { start, end: i + 1 },
                        acc,
                    );
                },
                ParserStateModel::ExpectEscaped => {},
            }
        }
    }
}

/// Every successfully parsed pattern yields a normalized token sequence:
/// merging adjacent wildcards and adjacent literals is mandatory, so the
/// result never carries two neighbouring tokens of the same kind, nor an
/// empty literal.
pub proof fn lemma_parse_normalized(s: Seq<char>)
    ensures
        spec_parse(s) matches Ok(m) ==> tokens_normalized(m),
{
    lemma_parse_from_normalized(s, 0, ParserStateModel::ExpectNew, Seq::empty());
}

/// The tokenizer's state between two characters, as the parser tracks it:
/// a literal run is remembered as its start and end indices in the pattern,
/// so no characters are copied until the run is flushed.
#[derive(Clone, Copy)]
enum ParserState {
    ExpectNew,
    BorrowedLiteral(usize, usize),
    ExpectEscapedCharacter,
}

impl ParserState {
    spec fn model(&self) -> ParserStateModel {
        match self {
            ParserState::ExpectNew => ParserStateModel::ExpectNew,
            ParserState::BorrowedLiteral(start, end) => ParserStateModel::InLiteral {
                start: *start as int,
                end: *end as int,
            },
            ParserState::ExpectEscapedCharacter => ParserStateModel::ExpectEscaped,
        }
    }
}

spec fn state_run_length(state: ParserState) -> int {
    match state {
        ParserState::BorrowedLiteral(start, end) => end - start,
        _ => 0,
    }
}

/// Parses a pattern into its token sequence, or reports the first escape
/// error. The result is proved to be exactly what the specification-level
/// tokenizer [`spec_parse`] produces for the pattern's characters.
#[verifier::loop_isolation(false)]
pub fn parse_glob_string(pattern: &str) -> (r: Result<Vec<Token>, GlobParseError>)
    ensures
        match r {
            Ok(tokens) => spec_parse(pattern@) matches Ok(models) && token_models(tokens@)
                == models && tokens_wf(tokens@),
            Err(e) => spec_parse(pattern@) matches Err(model) && e.model() == model,
        },
{
    let n = pattern.unicode_len();
    let mut output: Vec<Token> = Vec::new();
    let mut parser_state = ParserState::ExpectNew;
    let mut i: usize = 0;
    proof {
        assert(token_models(output@) =~= Seq::<TokenModel>::empty());
    }
    while i < n
        invariant
            i <= n,
            spec_parse(pattern@) == spec_parse_from(
                pattern@,
                i as int,
                parser_state.model(),
                token_models(output@),
            ),
            tokens_wf(output@),
            models_total_size(token_models(output@)) + state_run_length(parser_state) <= i,
            parser_state matches ParserState::BorrowedLiteral(start, end) ==> start < end && end
                == i,
            parser_state is ExpectEscapedCharacter ==> i >= 1,
        decreases n - i,
    {
        let ghost old_models = token_models(output@);
        let c = pattern.get_char(i);
        if c == '*' || c == '?' {
            match parser_state {
                ParserState::ExpectNew => {
                    let token = wildcard_for_character(c);
                    append_wildcard_to_token_sequence(&mut output, token);
                    proof {
                        lemma_total_size_append_wildcard(old_models, token.model());
                    }
                },
                ParserState::BorrowedLiteral(start, end) => {
                    append_literal_to_token_sequence(
                        &mut output,
                        pattern.substring_char(start, end),
                    );
                    let token = wildcard_for_character(c);
                    output.push(token);
                    parser_state = ParserState::ExpectNew;
                    proof {
                        let flushed = spec_append_literal(
                            old_models,
                            pattern@.subrange(start as int, end as int),
                        );
                        assert(token_models(output@) =~= flushed.push(token.model()));
                        lemma_total_size_append_literal(
                            old_models,
                            pattern@.subrange(start as int, end as int),
                        );
                        lemma_total_size_push(flushed, token.model());
                    }
                },
                ParserState::ExpectEscapedCharacter => {
                    parser_state = ParserState::BorrowedLiteral(i, i + 1);
                },
            }
        } else if c == '\\' {
            match parser_state {
                ParserState::ExpectNew => {
                    parser_state = ParserState::ExpectEscapedCharacter;
                },
                ParserState::BorrowedLiteral(start, end) => {
                    append_literal_to_token_sequence(
                        &mut output,
                        pattern.substring_char(start, end),
                    );
                    parser_state = ParserState::ExpectEscapedCharacter;
                    proof {
                        lemma_total_size_append_literal(
                            old_models,
                            pattern@.subrange(start as int, end as int),
                        );
                    }
                },
                ParserState::ExpectEscapedCharacter => {
                    parser_state = ParserState::BorrowedLiteral(i, i + 1);
                },
            }
        } else {
            match parser_state {
                ParserState::ExpectNew => {
                    parser_state = ParserState::BorrowedLiteral(i, i + 1);
                },
                ParserState::BorrowedLiteral(start, _) => {
                    parser_state = ParserState::BorrowedLiteral(start, i + 1);
                },
                ParserState::ExpectEscapedCharacter => {
                    return Err(
                        GlobParseError::UnknownEscapeSequence(
                            i - 1,
                            pattern.substring_char(i - 1, i + 1).to_owned(),
                        ),
                    );
                },
            }
        }
        i = i + 1;
    }
    match parser_state {
        ParserState::ExpectNew => Ok(output),
        ParserState::BorrowedLiteral(start, end) => {
            append_literal_to_token_sequence(&mut output, pattern.substring_char(start, end));
            Ok(output)
        },
        ParserState::ExpectEscapedCharacter => Err(
            GlobParseError::UnterminatedEscapeSequence(n - 1),
        ),
    }
}

} // verus!
