//! Lexer and section parser for the machine description language.

use vstd::prelude::*;
use crate::Span;

verus! {

/// The kind of a lexical token.
#[derive(Debug, Clone, Copy, PartialEq, Eq, Structural)]
pub enum TokenKind {
    LeftSquareBracket,
    RightSquareBracket,
    LeftParen,
    RightParen,
    Comma,
    Colon,
    Arrow,
    Identifier,
    Push,
    Pop,
    Noop,
    Write,
    Left,
    Right,
    EOF,
}

/// A token: a kind plus the span of source characters it covers.
/// Tokens never own text; their text is resolved against the source buffer.
#[derive(Debug, Clone, Copy, PartialEq, Eq, Structural)]
pub struct Token {
    pub kind: TokenKind,
    pub span: Span,
}

/// The text a token covers in the source buffer.
pub open spec fn token_str(src: Seq<char>, t: Token) -> Seq<char> {
    src.subrange(t.span.offset as int, t.span.offset + t.span.len)
}

/// Whether a token's span lies inside a source buffer of length `n`.
pub open spec fn token_in_bounds(t: Token, n: int) -> bool {
    t.span.offset + t.span.len <= n
}

impl Token {
    pub fn new(kind: TokenKind, span: Span) -> (r: Self)
        ensures
            r.kind == kind,
            r.span == span,
    {
        Self { kind, span }
    }

    /// The literal text of this token, copied out of the source buffer.
    pub fn src(&self, src: &[char]) -> (r: Vec<char>)
        requires
            token_in_bounds(*self, src@.len() as int),
        ensures
            r@ == token_str(src@, *self),
    {
        let n: usize = src.len();
        let mut out: Vec<char> = Vec::new();
        let mut i: usize = self.span.offset;
        let end: usize = self.span.offset + self.span.len;
        while i < end
            invariant
                self.span.offset <= i <= end,
                end == self.span.offset + self.span.len,
                end <= src@.len(),
                out@ == src@.subrange(self.span.offset as int, i as int),
            decreases end - i,
        {
            out.push(src[i]);
            assert(out@ =~= src@.subrange(self.span.offset as int, i + 1));
            i = i + 1;
        }
        assert(out@ =~= token_str(src@, *self));
        out
    }

    pub fn span(&self) -> (r: Span)
        ensures
            r == self.span,
    {
        self.span
    }
}

/// What the lexer or parser was looking for when it failed.
#[derive(Debug, Clone, Copy, PartialEq, Eq, Structural)]
pub enum Expected {
    RightAngle,
    LeftSquareBracket,
    RightSquareBracket,
    LeftParen,
    RightParen,
    Comma,
    Colon,
    Arrow,
    Identifier,
    StackOpOrDirection,
    DirectionWord,
}

#[derive(Debug, Clone, Copy, PartialEq, Eq)]
pub enum LexerError {
    /// A character that cannot start or continue any token here.
    UnexpectedCharacter { at: Span, expected: Expected },
    /// The input ended in the middle of a two-character token.
    UnexpectedEOF { last_token: Option<Token> },
}

/// Whether a character is alphanumeric in the Unicode sense, as decided by
/// `char::is_alphanumeric`.
pub uninterp spec fn alphanumeric(c: char) -> bool;

/// Relies on `char::is_alphanumeric`: the result depends on the character alone.
pub assume_specification[ char::is_alphanumeric ](c: char) -> (r: bool)
    ensures
        r == alphanumeric(c),
;

/// Characters that may continue an identifier.
pub open spec fn is_ident_char(c: char) -> bool {
    alphanumeric(c) || c == '_'
}

/// Characters the lexer skips.
pub open spec fn is_space_char(c: char) -> bool {
    c == ' ' || c == '\t' || c == '\n' || c == '\r'
}

/// First position at or after `i` that does not continue an identifier.
pub open spec fn scan_ident(src: Seq<char>, i: int) -> int
    decreases src.len() - i,
{
    if i < src.len() && is_ident_char(src[i]) {
        scan_ident(src, i + 1)
    } else {
        i
    }
}

/// First position at or after `i` holding a newline, or the end of the input;
/// a comment runs up to (not including) this position.
pub open spec fn scan_comment(src: Seq<char>, i: int) -> int
    decreases src.len() - i,
{
    if i < src.len() && src[i] != '\n' {
        scan_comment(src, i + 1)
    } else {
        i
    }
}

pub proof fn lemma_scan_ident_bounds(src: Seq<char>, i: int)
    requires
        0 <= i <= src.len(),
    ensures
        i <= scan_ident(src, i) <= src.len(),
    decreases src.len() - i,
{
    if i < src.len() && is_ident_char(src[i]) {
        lemma_scan_ident_bounds(src, i + 1);
    }
}

pub proof fn lemma_scan_comment_bounds(src: Seq<char>, i: int)
    requires
        0 <= i <= src.len(),
    ensures
        i <= scan_comment(src, i) <= src.len(),
    decreases src.len() - i,
{
    if i < src.len() && src[i] != '\n' {
        lemma_scan_comment_bounds(src, i + 1);
    }
}

/// The text of the keyword `PUSH`.
pub open spec fn text_is_push(t: Seq<char>) -> bool {
    t.len() == 4 && t[0] == 'P' && t[1] == 'U' && t[2] == 'S' && t[3] == 'H'
}

/// The text of the keyword `POP`.
pub open spec fn text_is_pop(t: Seq<char>) -> bool {
    t.len() == 3 && t[0] == 'P' && t[1] == 'O' && t[2] == 'P'
}

/// The text of the keyword `NOOP`.
pub open spec fn text_is_noop(t: Seq<char>) -> bool {
    t.len() == 4 && t[0] == 'N' && t[1] == 'O' && t[2] == 'O' && t[3] == 'P'
}

/// The text of the keyword `WRITE`.
pub open spec fn text_is_write(t: Seq<char>) -> bool {
    t.len() == 5 && t[0] == 'W' && t[1] == 'R' && t[2] == 'I' && t[3] == 'T' && t[4] == 'E'
}

/// The text of the keyword `LEFT`.
pub open spec fn text_is_left(t: Seq<char>) -> bool {
    t.len() == 4 && t[0] == 'L' && t[1] == 'E' && t[2] == 'F' && t[3] == 'T'
}

/// The text of the keyword `RIGHT`.
pub open spec fn text_is_right(t: Seq<char>) -> bool {
    t.len() == 5 && t[0] == 'R' && t[1] == 'I' && t[2] == 'G' && t[3] == 'H' && t[4] == 'T'
}

/// The token kind of a scanned word: one of the reserved keywords, or a
/// generic identifier.
pub open spec fn keyword_kind(t: Seq<char>) -> TokenKind {
    if text_is_push(t) {
        TokenKind::Push
    } else if text_is_pop(t) {
        TokenKind::Pop
    } else if text_is_noop(t) {
        TokenKind::Noop
    } else if text_is_write(t) {
        TokenKind::Write
    } else if text_is_left(t) {
        TokenKind::Left
    } else if text_is_right(t) {
        TokenKind::Right
    } else {
        TokenKind::Identifier
    }
}

/// A token with the given kind covering `[offset, offset + len)`.
pub open spec fn mk_token(kind: TokenKind, offset: int, len: int) -> Token {
    Token { kind, span: Span { offset: offset as usize, len: len as usize } }
}

/// Prepends a token to the tokens still to come, propagating a later error.
pub open spec fn lex_cons(t: Token, rest: Result<Seq<Token>, LexerError>) -> Result<
    Seq<Token>,
    LexerError,
> {
    match rest {
        Ok(s) => Ok(seq![t] + s),
        Err(e) => Err(e),
    }
}

/// The tokens produced from position `i` on, `prev` being the last token
/// already produced.  A trailing end-of-input sentinel token is always
/// appended.
pub open spec fn spec_lex_from(src: Seq<char>, i: int, prev: Option<Token>) -> Result<
    Seq<Token>,
    LexerError,
>
    decreases src.len() - i,
    when 0 <= i
    via spec_lex_from_dec
{
    if i >= src.len() {
        Ok(seq![mk_token(TokenKind::EOF, src.len() as int, 0)])
    } else {
        let c = src[i];
        if c == '[' {
            let t = mk_token(TokenKind::LeftSquareBracket, i, 1);
            lex_cons(t, spec_lex_from(src, i + 1, Some(t)))
        } else if c == ']' {
            let t = mk_token(TokenKind::RightSquareBracket, i, 1);
            lex_cons(t, spec_lex_from(src, i + 1, Some(t)))
        } else if c == '(' {
            let t = mk_token(TokenKind::LeftParen, i, 1);
            lex_cons(t, spec_lex_from(src, i + 1, Some(t)))
        } else if c == ')' {
            let t = mk_token(TokenKind::RightParen, i, 1);
            lex_cons(t, spec_lex_from(src, i + 1, Some(t)))
        } else if c == ',' {
            let t = mk_token(TokenKind::Comma, i, 1);
            lex_cons(t, spec_lex_from(src, i + 1, Some(t)))
        } else if c == ':' {
            let t = mk_token(TokenKind::Colon, i, 1);
            lex_cons(t, spec_lex_from(src, i + 1, Some(t)))
        } else if c == '=' {
            if i + 1 >= src.len() {
                Err(LexerError::UnexpectedEOF { last_token: prev })
            } else if src[i + 1] != '>' {
                Err(
                    LexerError::UnexpectedCharacter {
                        at: Span { offset: i as usize, len: 1 },
                        expected: Expected::RightAngle,
                    },
                )
            } else {
                let t = mk_token(TokenKind::Arrow, i, 2);
                lex_cons(t, spec_lex_from(src, i + 2, Some(t)))
            }
        } else if is_space_char(c) {
            spec_lex_from(src, i + 1, prev)
        } else if c == '#' {
            spec_lex_from(src, scan_comment(src, i + 1), prev)
        } else {
            let j = scan_ident(src, i + 1);
            let t = mk_token(keyword_kind(src.subrange(i, j)), i, j - i);
            lex_cons(t, spec_lex_from(src, j, Some(t)))
        }
    }
}

#[via_fn]
proof fn spec_lex_from_dec(src: Seq<char>, i: int, prev: Option<Token>) {
    if 0 <= i && i < src.len() {
        lemma_scan_ident_bounds(src, i + 1);
        lemma_scan_comment_bounds(src, i + 1);
    }
}


proof fn lemma_lex_cons_bounds(src: Seq<char>, t: Token, rest: Result<Seq<Token>, LexerError>)
    requires
        token_in_bounds(t, src.len() as int),
        rest matches Ok(s) ==> all_in_bounds(src, s),
    ensures
        lex_cons(t, rest) matches Ok(s) ==> all_in_bounds(src, s),
{
    match rest {
        Ok(s) => {
            assert forall|k: int| 0 <= k < (seq![t] + s).len() implies token_in_bounds(
                #[trigger] (seq![t] + s)[k],
                src.len() as int,
            ) by {
                if k > 0 {
                    assert((seq![t] + s)[k] == s[k - 1]);
                } else {
                    assert((seq![t] + s)[0] == t);
                }
            }
        },
        Err(_) => {},
    }
}

/// Every token the lexer produces lies inside the source buffer.
pub proof fn lemma_lex_in_bounds(src: Seq<char>, i: int, prev: Option<Token>)
    requires
        0 <= i <= src.len(),
    ensures
        spec_lex_from(src, i, prev) matches Ok(ts) ==> all_in_bounds(src, ts),
    decreases src.len() - i,
{
    if i >= src.len() {
        let ts = seq![mk_token(TokenKind::EOF, src.len() as int, 0)];
        assert forall|k: int| 0 <= k < ts.len() implies token_in_bounds(
            #[trigger] ts[k],
            src.len() as int,
        ) by {}
    } else {
        let c = src[i];
        if c == '[' || c == ']' || c == '(' || c == ')' || c == ',' || c == ':' {
            lemma_lex_in_bounds(src, i + 1, Some(spec_lex_head(src, i)));
            lemma_lex_cons_bounds(
                src,
                spec_lex_head(src, i),
                spec_lex_from(src, i + 1, Some(spec_lex_head(src, i))),
            );
        } else if c == '=' {
            if i + 1 < src.len() && src[i + 1] == '>' {
                let t = mk_token(TokenKind::Arrow, i, 2);
                lemma_lex_in_bounds(src, i + 2, Some(t));
                lemma_lex_cons_bounds(src, t, spec_lex_from(src, i + 2, Some(t)));
            }
        } else if is_space_char(c) {
            lemma_lex_in_bounds(src, i + 1, prev);
        } else if c == '#' {
            lemma_scan_comment_bounds(src, i + 1);
            lemma_lex_in_bounds(src, scan_comment(src, i + 1), prev);
        } else {
            lemma_scan_ident_bounds(src, i + 1);
            let j = scan_ident(src, i + 1);
            let t = mk_token(keyword_kind(src.subrange(i, j)), i, j - i);
            lemma_lex_in_bounds(src, j, Some(t));
            lemma_lex_cons_bounds(src, t, spec_lex_from(src, j, Some(t)));
        }
    }
}

/// The token a single-character branch of the lexer produces at `i`.
pub open spec fn spec_lex_head(src: Seq<char>, i: int) -> Token {
    let c = src[i];
    if c == '[' {
        mk_token(TokenKind::LeftSquareBracket, i, 1)
    } else if c == ']' {
        mk_token(TokenKind::RightSquareBracket, i, 1)
    } else if c == '(' {
        mk_token(TokenKind::LeftParen, i, 1)
    } else if c == ')' {
        mk_token(TokenKind::RightParen, i, 1)
    } else if c == ',' {
        mk_token(TokenKind::Comma, i, 1)
    } else {
        mk_token(TokenKind::Colon, i, 1)
    }
}

/// The token sequence of a whole source buffer.
pub open spec fn spec_lex(src: Seq<char>) -> Result<Seq<Token>, LexerError> {
    spec_lex_from(src, 0, None)
}

fn scan_ident_at(src: &[char], start: usize) -> (r: usize)
    requires
        start <= src@.len(),
    ensures
        r == scan_ident(src@, start as int),
        start <= r <= src@.len(),
{
    let n: usize = src.len();
    let mut j = start;
    while j < n && (src[j].is_alphanumeric() || src[j] == '_')
        invariant
            start <= j <= n,
            n == src@.len(),
            scan_ident(src@, start as int) == scan_ident(src@, j as int),
        decreases n - j,
    {
        j = j + 1;
    }
    j
}

fn scan_comment_at(src: &[char], start: usize) -> (r: usize)
    requires
        start <= src@.len(),
    ensures
        r == scan_comment(src@, start as int),
        start <= r <= src@.len(),
{
    let n: usize = src.len();
    let mut j = start;
    while j < n && src[j] != '\n'
        invariant
            start <= j <= n,
            n == src@.len(),
            scan_comment(src@, start as int) == scan_comment(src@, j as int),
        decreases n - j,
    {
        j = j + 1;
    }
    j
}

/// Decides which keyword (if any) the word `src[i..j]` spells.
fn keyword_kind_at(src: &[char], i: usize, j: usize) -> (r: TokenKind)
    requires
        i <= j <= src@.len(),
    ensures
        r == keyword_kind(src@.subrange(i as int, j as int)),
{
    let ghost t = src@.subrange(i as int, j as int);
    let len = j - i;
    proof {
        assert(t.len() == len);
        assert(forall|k: int| 0 <= k < t.len() ==> t[k] == src@[i + k]);
    }
    if len == 4 && src[i] == 'P' && src[i + 1] == 'U' && src[i + 2] == 'S' && src[i + 3] == 'H' {
        TokenKind::Push
    } else if len == 3 && src[i] == 'P' && src[i + 1] == 'O' && src[i + 2] == 'P' {
        TokenKind::Pop
    } else if len == 4 && src[i] == 'N' && src[i + 1] == 'O' && src[i + 2] == 'O' && src[i + 3]
        == 'P' {
        TokenKind::Noop
    } else if len == 5 && src[i] == 'W' && src[i + 1] == 'R' && src[i + 2] == 'I' && src[i + 3]
        == 'T' && src[i + 4] == 'E' {
        TokenKind::Write
    } else if len == 4 && src[i] == 'L' && src[i + 1] == 'E' && src[i + 2] == 'F' && src[i + 3]
        == 'T' {
        TokenKind::Left
    } else if len == 5 && src[i] == 'R' && src[i + 1] == 'I' && src[i + 2] == 'G' && src[i + 3]
        == 'H' && src[i + 4] == 'T' {
        TokenKind::Right
    } else {
        TokenKind::Identifier
    }
}

/// The exec lexer: scans from position `i` on, pushing every produced token,
/// and mirrors `spec_lex_from` exactly.
fn lex_from(src: &[char], i: usize, prev: Option<Token>, tokens: &mut Vec<Token>) -> (r: Result<
    (),
    LexerError,
>)
    requires
        i <= src@.len(),
    ensures
        match spec_lex_from(src@, i as int, prev) {
            Ok(rest) => r is Ok && final(tokens)@ == old(tokens)@ + rest,
            Err(e) => r == Err::<(), LexerError>(e),
        },
    decreases src@.len() - i,
{
    let n: usize = src.len();
    if i >= n {
        let t = Token { kind: TokenKind::EOF, span: Span { offset: n, len: 0 } };
        tokens.push(t);
        assert(tokens@ =~= old(tokens)@ + seq![t]);
        return Ok(());
    }
    let c = src[i];
    if c == '[' || c == ']' || c == '(' || c == ')' || c == ',' || c == ':' {
        let kind = if c == '[' {
            TokenKind::LeftSquareBracket
        } else if c == ']' {
            TokenKind::RightSquareBracket
        } else if c == '(' {
            TokenKind::LeftParen
        } else if c == ')' {
            TokenKind::RightParen
        } else if c == ',' {
            TokenKind::Comma
        } else {
            TokenKind::Colon
        };
        let t = Token { kind, span: Span { offset: i, len: 1 } };
        tokens.push(t);
        let r = lex_from(src, i + 1, Some(t), tokens);
        proof {
            let res = spec_lex_from(src@, i + 1, Some(t));
            if res is Ok {
                assert(tokens@ =~= old(tokens)@ + (seq![t] + res->Ok_0));
            }
        }
        r
    } else if c == '=' {
        if i + 1 >= n {
            return Err(LexerError::UnexpectedEOF { last_token: prev });
        }
        if src[i + 1] != '>' {
            return Err(
                LexerError::UnexpectedCharacter {
                    at: Span { offset: i, len: 1 },
                    expected: Expected::RightAngle,
                },
            );
        }
        let t = Token { kind: TokenKind::Arrow, span: Span { offset: i, len: 2 } };
        tokens.push(t);
        let r = lex_from(src, i + 2, Some(t), tokens);
        proof {
            let res = spec_lex_from(src@, i + 2, Some(t));
            if res is Ok {
                assert(tokens@ =~= old(tokens)@ + (seq![t] + res->Ok_0));
            }
        }
        r
    } else if c == ' ' || c == '\t' || c == '\n' || c == '\r' {
        lex_from(src, i + 1, prev, tokens)
    } else if c == '#' {
        let j = scan_comment_at(src, i + 1);
        lex_from(src, j, prev, tokens)
    } else {
        let j = scan_ident_at(src, i + 1);
        let kind = keyword_kind_at(src, i, j);
        let t = Token { kind, span: Span { offset: i, len: j - i } };
        tokens.push(t);
        let r = lex_from(src, j, Some(t), tokens);
        proof {
            let res = spec_lex_from(src@, j as int, Some(t));
            if res is Ok {
                assert(tokens@ =~= old(tokens)@ + (seq![t] + res->Ok_0));
            }
        }
        r
    }
}

/// The required (or, for the tape machine, conditionally required) fields a
/// machine description may lack, named in missing-section errors.
#[derive(Debug, Clone, Copy, PartialEq, Eq, Structural)]
pub enum SectionName {
    States,
    Alphabet,
    Transitions,
    StartState,
    FinalStates,
    TapeAlphabet,
    BlankSymbol,
    Direction,
}

#[derive(Debug, Clone, Copy, PartialEq, Eq)]
pub enum ParserError {
    /// A token that does not fit the grammar here.
    UnexpectedToken { at: Span, expected: Expected },
    /// The token stream ended where more input was required.
    UnexpectedEOF,
    /// A required section never appeared.
    MissingSection { section: SectionName },
    /// A section name appeared twice; both occurrences are labelled.
    DuplicateSection { at: Span, other: Span },
    /// A state name not present in the declared state set.
    UnknownState { at: Span },
    /// A symbol not present in the declared alphabet.
    UnknownAlphabetSymbol { at: Span },
    /// A section name outside the fixed section grammar.
    UnknownSectionName { at: Span },
}

/// The left half of a raw transition: from-state, consumed symbol, and an
/// optional required stack-top symbol.
#[derive(Debug, Clone, Copy, PartialEq, Eq)]
pub struct TransitionFrom {
    pub initial: Token,
    pub with_symbol: Token,
    pub with_stack_symbol: Option<Token>,
}

/// A raw stack or tape operation attached to a transition.
#[derive(Debug, Clone, Copy, PartialEq, Eq)]
pub enum StackTransition {
    Push(Token),
    Pop,
    NoOp,
    Write(Token),
}

/// A raw head direction attached to a transition.
#[derive(Debug, Clone, Copy, PartialEq, Eq)]
pub enum Direction {
    Left,
    Right,
}

/// The right half of a raw transition: destination state, optional stack or
/// tape operation, optional direction.
#[derive(Debug, Clone, Copy, PartialEq, Eq)]
pub struct TransitionTo(pub Token, pub Option<StackTransition>, pub Option<Direction>);

/// One raw transition record.
#[derive(Debug, Clone, Copy, PartialEq, Eq)]
pub struct TransitionInfo {
    pub from: TransitionFrom,
    pub to: TransitionTo,
}

/// The untyped intermediate machine description a successful parse produces.
/// Uniqueness of states and symbols is not enforced at this stage; the
/// optional stack and tape fields are handed through for the validators.
#[derive(Debug)]
pub struct PartialMachineInfo {
    pub states: Vec<Token>,
    pub alphabet: Vec<Token>,
    pub transitions: Vec<TransitionInfo>,
    pub start_state: Token,
    pub final_states: Vec<Token>,
    pub stack_alphabet: Option<Vec<Token>>,
    pub start_stack: Option<Token>,
    pub tape_alphabet: Option<Vec<Token>>,
    pub blank_symbol: Option<Token>,
}

/// The mathematical shape of a parsed machine description.
pub struct PartialMachineInfoView {
    pub states: Seq<Token>,
    pub alphabet: Seq<Token>,
    pub transitions: Seq<TransitionInfo>,
    pub start_state: Token,
    pub final_states: Seq<Token>,
    pub stack_alphabet: Option<Seq<Token>>,
    pub start_stack: Option<Token>,
    pub tape_alphabet: Option<Seq<Token>>,
    pub blank_symbol: Option<Token>,
}

impl View for PartialMachineInfo {
    type V = PartialMachineInfoView;

    open spec fn view(&self) -> PartialMachineInfoView {
        PartialMachineInfoView {
            states: self.states@,
            alphabet: self.alphabet@,
            transitions: self.transitions@,
            start_state: self.start_state,
            final_states: self.final_states@,
            stack_alphabet: match self.stack_alphabet {
                Some(v) => Some(v@),
                None => None,
            },
            start_stack: self.start_stack,
            tape_alphabet: match self.tape_alphabet {
                Some(v) => Some(v@),
                None => None,
            },
            blank_symbol: self.blank_symbol,
        }
    }
}

/// Whether every token's span lies inside a source buffer of length
/// `src.len()`.
pub open spec fn all_in_bounds(src: Seq<char>, tokens: Seq<Token>) -> bool {
    forall|k: int| 0 <= k < tokens.len() ==> token_in_bounds(#[trigger] tokens[k], src.len() as int)
}

/// The token at position `i`, demanded to be of the given kind; any other
/// kind is an unexpected-token error, and the end of the stream an
/// unexpected-end-of-input error.
pub open spec fn spec_expect(tokens: Seq<Token>, i: int, kind: TokenKind, exp: Expected) -> Result<
    Token,
    ParserError,
> {
    if i >= tokens.len() {
        Err(ParserError::UnexpectedEOF)
    } else {
        let t = tokens[i];
        if t.kind == kind {
            Ok(t)
        } else if t.kind == TokenKind::EOF {
            Err(ParserError::UnexpectedEOF)
        } else {
            Err(ParserError::UnexpectedToken { at: t.span, expected: exp })
        }
    }
}

/// A section header `[` name `]` starting at `i`: the name token and the
/// position after the header, or `None` at the end of the stream.
pub open spec fn spec_parse_section(tokens: Seq<Token>, i: int) -> Result<
    Option<(Token, int)>,
    ParserError,
> {
    if i >= tokens.len() {
        Ok(None)
    } else {
        let t = tokens[i];
        if t.kind == TokenKind::EOF {
            Ok(None)
        } else if t.kind != TokenKind::LeftSquareBracket {
            Err(ParserError::UnexpectedToken { at: t.span, expected: Expected::LeftSquareBracket })
        } else {
            match spec_expect(tokens, i + 1, TokenKind::Identifier, Expected::Identifier) {
                Err(e) => Err(e),
                Ok(name) => match spec_expect(
                    tokens,
                    i + 2,
                    TokenKind::RightSquareBracket,
                    Expected::RightSquareBracket,
                ) {
                    Err(e) => Err(e),
                    Ok(_) => Ok(Some((name, i + 3))),
                },
            }
        }
    }
}

/// A single-identifier section body.
pub open spec fn spec_parse_single(tokens: Seq<Token>, i: int) -> Result<(Token, int), ParserError> {
    match spec_expect(tokens, i, TokenKind::Identifier, Expected::Identifier) {
        Err(e) => Err(e),
        Ok(t) => Ok((t, i + 1)),
    }
}

/// A comma-separated identifier list body; it stops before a `[` or the
/// end-of-input sentinel, and must hold at least one identifier.
pub open spec fn spec_parse_list(tokens: Seq<Token>, i: int) -> Result<
    (Seq<Token>, int),
    ParserError,
>
    decreases tokens.len() - i,
    when 0 <= i
{
    if i >= tokens.len() {
        Err(ParserError::UnexpectedEOF)
    } else {
        let t = tokens[i];
        if t.kind == TokenKind::EOF {
            Err(ParserError::UnexpectedEOF)
        } else if t.kind != TokenKind::Identifier {
            Err(ParserError::UnexpectedToken { at: t.span, expected: Expected::LeftSquareBracket })
        } else {
            if i + 1 >= tokens.len() {
                Ok((seq![t], i + 1))
            } else {
                let p = tokens[i + 1];
                if p.kind == TokenKind::Comma {
                    match spec_parse_list(tokens, i + 2) {
                        Err(e) => Err(e),
                        Ok((rest, j)) => Ok((seq![t] + rest, j)),
                    }
                } else if p.kind == TokenKind::EOF || p.kind == TokenKind::LeftSquareBracket {
                    Ok((seq![t], i + 1))
                } else {
                    Err(ParserError::UnexpectedToken { at: p.span, expected: Expected::Comma })
                }
            }
        }
    }
}

pub proof fn lemma_parse_list_pos(tokens: Seq<Token>, i: int)
    requires
        0 <= i,
    ensures
        spec_parse_list(tokens, i) matches Ok(p) ==> i < p.1 <= tokens.len(),
    decreases tokens.len() - i,
{
    if i + 1 < tokens.len() && i < tokens.len() {
        lemma_parse_list_pos(tokens, i + 2);
    }
}

/// The optional `, stack-op` and `, direction` part after a destination
/// state.  A second comma may only introduce a direction, which replaces any
/// direction the first operation set.
pub open spec fn spec_parse_second_op(
    tokens: Seq<Token>,
    k: int,
    st: Option<StackTransition>,
    dir: Option<Direction>,
) -> Result<((Option<StackTransition>, Option<Direction>), int), ParserError> {
    if k >= tokens.len() || tokens[k].kind != TokenKind::Comma {
        Ok(((st, dir), k))
    } else if k + 1 >= tokens.len() {
        Err(ParserError::UnexpectedEOF)
    } else {
        let d = tokens[k + 1];
        if d.kind == TokenKind::Left {
            Ok(((st, Some(Direction::Left)), k + 2))
        } else if d.kind == TokenKind::Right {
            Ok(((st, Some(Direction::Right)), k + 2))
        } else if d.kind == TokenKind::EOF {
            Err(ParserError::UnexpectedEOF)
        } else {
            Err(ParserError::UnexpectedToken { at: d.span, expected: Expected::DirectionWord })
        }
    }
}

/// The optional operation list after a destination state: nothing, one stack
/// or tape operation, or a direction, optionally followed by a direction.
pub open spec fn spec_parse_trans_ops(tokens: Seq<Token>, k: int) -> Result<
    ((Option<StackTransition>, Option<Direction>), int),
    ParserError,
> {
    if k >= tokens.len() || tokens[k].kind != TokenKind::Comma {
        Ok(((None, None), k))
    } else if k + 1 >= tokens.len() {
        Err(ParserError::UnexpectedEOF)
    } else {
        let op = tokens[k + 1];
        if op.kind == TokenKind::Push || op.kind == TokenKind::Write {
            match spec_expect(tokens, k + 2, TokenKind::Colon, Expected::Colon) {
                Err(e) => Err(e),
                Ok(_) => match spec_expect(tokens, k + 3, TokenKind::Identifier, Expected::Identifier) {
                    Err(e) => Err(e),
                    Ok(sym) => {
                        let st = if op.kind == TokenKind::Push {
                            StackTransition::Push(sym)
                        } else {
                            StackTransition::Write(sym)
                        };
                        spec_parse_second_op(tokens, k + 4, Some(st), None)
                    },
                },
            }
        } else if op.kind == TokenKind::Pop {
            spec_parse_second_op(tokens, k + 2, Some(StackTransition::Pop), None)
        } else if op.kind == TokenKind::Noop {
            spec_parse_second_op(tokens, k + 2, Some(StackTransition::NoOp), None)
        } else if op.kind == TokenKind::Left {
            spec_parse_second_op(tokens, k + 2, None, Some(Direction::Left))
        } else if op.kind == TokenKind::Right {
            spec_parse_second_op(tokens, k + 2, None, Some(Direction::Right))
        } else if op.kind == TokenKind::EOF {
            Err(ParserError::UnexpectedEOF)
        } else {
            Err(ParserError::UnexpectedToken { at: op.span, expected: Expected::StackOpOrDirection })
        }
    }
}

/// The part of a transition after the consumed-symbol group: `)` `=>` `(`
/// destination, optional operations, `)`.
pub open spec fn spec_parse_trans_rest(
    tokens: Seq<Token>,
    j: int,
    from: TransitionFrom,
) -> Result<(TransitionInfo, int), ParserError> {
    match spec_expect(tokens, j, TokenKind::RightParen, Expected::RightParen) {
        Err(e) => Err(e),
        Ok(_) => match spec_expect(tokens, j + 1, TokenKind::Arrow, Expected::Arrow) {
            Err(e) => Err(e),
            Ok(_) => match spec_expect(tokens, j + 2, TokenKind::LeftParen, Expected::LeftParen) {
                Err(e) => Err(e),
                Ok(_) => match spec_expect(
                    tokens,
                    j + 3,
                    TokenKind::Identifier,
                    Expected::Identifier,
                ) {
                    Err(e) => Err(e),
                    Ok(to_tok) => match spec_parse_trans_ops(tokens, j + 4) {
                        Err(e) => Err(e),
                        Ok(((st, dir), k)) => match spec_expect(
                            tokens,
                            k,
                            TokenKind::RightParen,
                            Expected::RightParen,
                        ) {
                            Err(e) => Err(e),
                            Ok(_) => Ok(
                                (TransitionInfo { from, to: TransitionTo(to_tok, st, dir) }, k + 1),
                            ),
                        },
                    },
                },
            },
        },
    }
}

/// One whole transition starting at `i`, whose first token is the from-state
/// identifier.
pub open spec fn spec_parse_one_transition(tokens: Seq<Token>, i: int) -> Result<
    (TransitionInfo, int),
    ParserError,
> {
    let from_tok = tokens[i];
    match spec_expect(tokens, i + 1, TokenKind::LeftParen, Expected::LeftParen) {
        Err(e) => Err(e),
        Ok(_) => match spec_expect(tokens, i + 2, TokenKind::Identifier, Expected::Identifier) {
            Err(e) => Err(e),
            Ok(sym) => {
                if i + 3 < tokens.len() && tokens[i + 3].kind == TokenKind::Comma {
                    match spec_expect(tokens, i + 4, TokenKind::Identifier, Expected::Identifier) {
                        Err(e) => Err(e),
                        Ok(ss) => spec_parse_trans_rest(
                            tokens,
                            i + 5,
                            TransitionFrom {
                                initial: from_tok,
                                with_symbol: sym,
                                with_stack_symbol: Some(ss),
                            },
                        ),
                    }
                } else {
                    spec_parse_trans_rest(
                        tokens,
                        i + 3,
                        TransitionFrom { initial: from_tok, with_symbol: sym, with_stack_symbol: None },
                    )
                }
            },
        },
    }
}

pub proof fn lemma_second_op_pos(
    tokens: Seq<Token>,
    k: int,
    st: Option<StackTransition>,
    dir: Option<Direction>,
)
    requires
        0 <= k,
    ensures
        spec_parse_second_op(tokens, k, st, dir) matches Ok(p) ==> k <= p.1,
{
}

pub proof fn lemma_trans_ops_pos(tokens: Seq<Token>, k: int)
    requires
        0 <= k,
    ensures
        spec_parse_trans_ops(tokens, k) matches Ok(p) ==> k <= p.1,
{
    lemma_second_op_pos(tokens, k + 2, Some(StackTransition::Pop), None);
    lemma_second_op_pos(tokens, k + 2, Some(StackTransition::NoOp), None);
    lemma_second_op_pos(tokens, k + 2, None, Some(Direction::Left));
    lemma_second_op_pos(tokens, k + 2, None, Some(Direction::Right));
    if k + 1 < tokens.len() {
        let op = tokens[k + 1];
        if op.kind == TokenKind::Push || op.kind == TokenKind::Write {
            let r = spec_expect(tokens, k + 3, TokenKind::Identifier, Expected::Identifier);
            if r is Ok {
                let sym = r->Ok_0;
                let st2 = if op.kind == TokenKind::Push {
                    StackTransition::Push(sym)
                } else {
                    StackTransition::Write(sym)
                };
                lemma_second_op_pos(tokens, k + 4, Some(st2), None);
            }
        }
    }
}

pub proof fn lemma_trans_rest_pos(tokens: Seq<Token>, j: int, from: TransitionFrom)
    requires
        0 <= j,
    ensures
        spec_parse_trans_rest(tokens, j, from) matches Ok(p) ==> j < p.1 <= tokens.len(),
{
    lemma_trans_ops_pos(tokens, j + 4);
}

pub proof fn lemma_one_transition_pos(tokens: Seq<Token>, i: int)
    requires
        0 <= i,
    ensures
        spec_parse_one_transition(tokens, i) matches Ok(p) ==> i < p.1 <= tokens.len(),
{
    let from_tok = tokens[i];
    let r = spec_expect(tokens, i + 2, TokenKind::Identifier, Expected::Identifier);
    if r is Ok {
        let sym = r->Ok_0;
        if i + 3 < tokens.len() && tokens[i + 3].kind == TokenKind::Comma {
            let r2 = spec_expect(tokens, i + 4, TokenKind::Identifier, Expected::Identifier);
            if r2 is Ok {
                lemma_trans_rest_pos(
                    tokens,
                    i + 5,
                    TransitionFrom {
                        initial: from_tok,
                        with_symbol: sym,
                        with_stack_symbol: Some(r2->Ok_0),
                    },
                );
            }
        } else {
            lemma_trans_rest_pos(
                tokens,
                i + 3,
                TransitionFrom { initial: from_tok, with_symbol: sym, with_stack_symbol: None },
            );
        }
    }
}

/// The transitions section body: transitions until a `[` or the end-of-input
/// sentinel, both left unconsumed.
pub open spec fn spec_parse_transitions(tokens: Seq<Token>, i: int) -> Result<
    (Seq<TransitionInfo>, int),
    ParserError,
>
    decreases tokens.len() - i,
    when 0 <= i
    via spec_parse_transitions_dec
{
    if i >= tokens.len() {
        Err(ParserError::UnexpectedEOF)
    } else {
        let t = tokens[i];
        if t.kind == TokenKind::EOF || t.kind == TokenKind::LeftSquareBracket {
            Ok((Seq::empty(), i))
        } else if t.kind != TokenKind::Identifier {
            Err(ParserError::UnexpectedToken { at: t.span, expected: Expected::LeftSquareBracket })
        } else {
            match spec_parse_one_transition(tokens, i) {
                Err(e) => Err(e),
                Ok((tr, j)) => match spec_parse_transitions(tokens, j) {
                    Err(e) => Err(e),
                    Ok((rest, k)) => Ok((seq![tr] + rest, k)),
                },
            }
        }
    }
}

#[via_fn]
proof fn spec_parse_transitions_dec(tokens: Seq<Token>, i: int) {
    if 0 <= i {
        lemma_one_transition_pos(tokens, i);
    }
}

pub proof fn lemma_parse_transitions_pos(tokens: Seq<Token>, i: int)
    requires
        0 <= i,
    ensures
        spec_parse_transitions(tokens, i) matches Ok(p) ==> i <= p.1 <= tokens.len(),
    decreases tokens.len() - i,
{
    if i < tokens.len() {
        let t = tokens[i];
        if t.kind == TokenKind::EOF || t.kind == TokenKind::LeftSquareBracket {
        } else if t.kind == TokenKind::Identifier {
            lemma_one_transition_pos(tokens, i);
            let r = spec_parse_one_transition(tokens, i);
            if r is Ok {
                lemma_parse_transitions_pos(tokens, r->Ok_0.1);
            }
        }
    }
}


/// The text of the section name `initial`.
pub open spec fn sec_text_initial(t: Seq<char>) -> bool {
    t.len() == 7 && t[0] == 'i' && t[1] == 'n' && t[2] == 'i' && t[3] == 't' && t[4] == 'i' && t[5] == 'a' && t[6] == 'l'
}

/// The text of the section name `final`.
pub open spec fn sec_text_final(t: Seq<char>) -> bool {
    t.len() == 5 && t[0] == 'f' && t[1] == 'i' && t[2] == 'n' && t[3] == 'a' && t[4] == 'l'
}

/// The text of the section name `states`.
pub open spec fn sec_text_states(t: Seq<char>) -> bool {
    t.len() == 6 && t[0] == 's' && t[1] == 't' && t[2] == 'a' && t[3] == 't' && t[4] == 'e' && t[5] == 's'
}

/// The text of the section name `alphabet`.
pub open spec fn sec_text_alphabet(t: Seq<char>) -> bool {
    t.len() == 8 && t[0] == 'a' && t[1] == 'l' && t[2] == 'p' && t[3] == 'h' && t[4] == 'a' && t[5] == 'b' && t[6] == 'e' && t[7] == 't'
}

/// The text of the section name `stack_alphabet`.
pub open spec fn sec_text_stack_alphabet(t: Seq<char>) -> bool {
    t.len() == 14 && t[0] == 's' && t[1] == 't' && t[2] == 'a' && t[3] == 'c' && t[4] == 'k' && t[5] == '_' && t[6] == 'a' && t[7] == 'l' && t[8] == 'p' && t[9] == 'h' && t[10] == 'a' && t[11] == 'b' && t[12] == 'e' && t[13] == 't'
}

/// The text of the section name `start_stack`.
pub open spec fn sec_text_start_stack(t: Seq<char>) -> bool {
    t.len() == 11 && t[0] == 's' && t[1] == 't' && t[2] == 'a' && t[3] == 'r' && t[4] == 't' && t[5] == '_' && t[6] == 's' && t[7] == 't' && t[8] == 'a' && t[9] == 'c' && t[10] == 'k'
}

/// The text of the section name `tape_alphabet`.
pub open spec fn sec_text_tape_alphabet(t: Seq<char>) -> bool {
    t.len() == 13 && t[0] == 't' && t[1] == 'a' && t[2] == 'p' && t[3] == 'e' && t[4] == '_' && t[5] == 'a' && t[6] == 'l' && t[7] == 'p' && t[8] == 'h' && t[9] == 'a' && t[10] == 'b' && t[11] == 'e' && t[12] == 't'
}

/// The text of the section name `blank_symbol`.
pub open spec fn sec_text_blank_symbol(t: Seq<char>) -> bool {
    t.len() == 12 && t[0] == 'b' && t[1] == 'l' && t[2] == 'a' && t[3] == 'n' && t[4] == 'k' && t[5] == '_' && t[6] == 's' && t[7] == 'y' && t[8] == 'm' && t[9] == 'b' && t[10] == 'o' && t[11] == 'l'
}

/// The text of the section name `transitions`.
pub open spec fn sec_text_transitions(t: Seq<char>) -> bool {
    t.len() == 11 && t[0] == 't' && t[1] == 'r' && t[2] == 'a' && t[3] == 'n' && t[4] == 's' && t[5] == 'i' && t[6] == 't' && t[7] == 'i' && t[8] == 'o' && t[9] == 'n' && t[10] == 's'
}

/// The known section names.
#[derive(Debug, Clone, Copy, PartialEq, Eq, Structural)]
pub enum SectionId {
    Initial,
    Final,
    States,
    Alphabet,
    StackAlphabet,
    StartStack,
    TapeAlphabet,
    BlankSymbol,
    Transitions,
}

/// Which section a name token's text denotes, if any.
pub open spec fn spec_section_of(t: Seq<char>) -> Option<SectionId> {
    if sec_text_initial(t) {
        Some(SectionId::Initial)
    } else if sec_text_final(t) {
        Some(SectionId::Final)
    } else if sec_text_states(t) {
        Some(SectionId::States)
    } else if sec_text_alphabet(t) {
        Some(SectionId::Alphabet)
    } else if sec_text_stack_alphabet(t) {
        Some(SectionId::StackAlphabet)
    } else if sec_text_start_stack(t) {
        Some(SectionId::StartStack)
    } else if sec_text_tape_alphabet(t) {
        Some(SectionId::TapeAlphabet)
    } else if sec_text_blank_symbol(t) {
        Some(SectionId::BlankSymbol)
    } else if sec_text_transitions(t) {
        Some(SectionId::Transitions)
    } else {
        None
    }
}

/// Decides which section a name spells.
fn section_of(t: &[char]) -> (r: Option<SectionId>)
    ensures
        r == spec_section_of(t@),
{
    let n = t.len();
    if n == 7 && t[0] == 'i' && t[1] == 'n' && t[2] == 'i' && t[3] == 't' && t[4] == 'i' && t[5] == 'a' && t[6] == 'l' {
        Some(SectionId::Initial)
    } else if n == 5 && t[0] == 'f' && t[1] == 'i' && t[2] == 'n' && t[3] == 'a' && t[4] == 'l' {
        Some(SectionId::Final)
    } else if n == 6 && t[0] == 's' && t[1] == 't' && t[2] == 'a' && t[3] == 't' && t[4] == 'e' && t[5] == 's' {
        Some(SectionId::States)
    } else if n == 8 && t[0] == 'a' && t[1] == 'l' && t[2] == 'p' && t[3] == 'h' && t[4] == 'a' && t[5] == 'b' && t[6] == 'e' && t[7] == 't' {
        Some(SectionId::Alphabet)
    } else if n == 14 && t[0] == 's' && t[1] == 't' && t[2] == 'a' && t[3] == 'c' && t[4] == 'k' && t[5] == '_' && t[6] == 'a' && t[7] == 'l' && t[8] == 'p' && t[9] == 'h' && t[10] == 'a' && t[11] == 'b' && t[12] == 'e' && t[13] == 't' {
        Some(SectionId::StackAlphabet)
    } else if n == 11 && t[0] == 's' && t[1] == 't' && t[2] == 'a' && t[3] == 'r' && t[4] == 't' && t[5] == '_' && t[6] == 's' && t[7] == 't' && t[8] == 'a' && t[9] == 'c' && t[10] == 'k' {
        Some(SectionId::StartStack)
    } else if n == 13 && t[0] == 't' && t[1] == 'a' && t[2] == 'p' && t[3] == 'e' && t[4] == '_' && t[5] == 'a' && t[6] == 'l' && t[7] == 'p' && t[8] == 'h' && t[9] == 'a' && t[10] == 'b' && t[11] == 'e' && t[12] == 't' {
        Some(SectionId::TapeAlphabet)
    } else if n == 12 && t[0] == 'b' && t[1] == 'l' && t[2] == 'a' && t[3] == 'n' && t[4] == 'k' && t[5] == '_' && t[6] == 's' && t[7] == 'y' && t[8] == 'm' && t[9] == 'b' && t[10] == 'o' && t[11] == 'l' {
        Some(SectionId::BlankSymbol)
    } else if n == 11 && t[0] == 't' && t[1] == 'r' && t[2] == 'a' && t[3] == 'n' && t[4] == 's' && t[5] == 'i' && t[6] == 't' && t[7] == 'i' && t[8] == 'o' && t[9] == 'n' && t[10] == 's' {
        Some(SectionId::Transitions)
    } else {
        None
    }
}

/// What the section parser has gathered so far: one optional slot per
/// section, and the name tokens of the sections already seen.
pub struct SectionAcc {
    pub states: Option<Seq<Token>>,
    pub alphabet: Option<Seq<Token>>,
    pub transitions: Option<Seq<TransitionInfo>>,
    pub start_state: Option<Token>,
    pub final_states: Option<Seq<Token>>,
    pub stack_alphabet: Option<Seq<Token>>,
    pub start_stack: Option<Token>,
    pub tape_alphabet: Option<Seq<Token>>,
    pub blank_symbol: Option<Token>,
    pub seen: Seq<Token>,
}

/// The state of the section parser before any section was read.
pub open spec fn acc_empty() -> SectionAcc {
    SectionAcc {
        states: None,
        alphabet: None,
        transitions: None,
        start_state: None,
        final_states: None,
        stack_alphabet: None,
        start_stack: None,
        tape_alphabet: None,
        blank_symbol: None,
        seen: Seq::empty(),
    }
}

/// The first already-seen section name token with the given text.
pub open spec fn find_seen(src: Seq<char>, seen: Seq<Token>, text: Seq<char>) -> Option<Token>
    decreases seen.len(),
{
    if seen.len() == 0 {
        None
    } else if token_str(src, seen[0]) == text {
        Some(seen[0])
    } else {
        find_seen(src, seen.drop_first(), text)
    }
}

/// After all sections are consumed: each required field must be present, in
/// this order of checks, else the missing one is named.
pub open spec fn spec_finish(acc: SectionAcc) -> Result<PartialMachineInfoView, ParserError> {
    match acc.states {
        None => Err(ParserError::MissingSection { section: SectionName::States }),
        Some(states) => match acc.alphabet {
            None => Err(ParserError::MissingSection { section: SectionName::Alphabet }),
            Some(alphabet) => match acc.transitions {
                None => Err(ParserError::MissingSection { section: SectionName::Transitions }),
                Some(transitions) => match acc.start_state {
                    None => Err(ParserError::MissingSection { section: SectionName::StartState }),
                    Some(start_state) => match acc.final_states {
                        None => Err(
                            ParserError::MissingSection { section: SectionName::FinalStates },
                        ),
                        Some(final_states) => Ok(
                            PartialMachineInfoView {
                                states,
                                alphabet,
                                transitions,
                                start_state,
                                final_states,
                                stack_alphabet: acc.stack_alphabet,
                                start_stack: acc.start_stack,
                                tape_alphabet: acc.tape_alphabet,
                                blank_symbol: acc.blank_symbol,
                            },
                        ),
                    },
                },
            },
        },
    }
}

/// The whole file from position `i` on: sections in any order, each at most
/// once, unknown names rejected, and the required fields demanded at the end.
pub open spec fn spec_parse_sections(
    src: Seq<char>,
    tokens: Seq<Token>,
    i: int,
    acc: SectionAcc,
) -> Result<PartialMachineInfoView, ParserError>
    decreases tokens.len() - i,
    when 0 <= i
    via spec_parse_sections_dec
{
    match spec_parse_section(tokens, i) {
        Err(e) => Err(e),
        Ok(None) => spec_finish(acc),
        Ok(Some((name, j))) => {
            let text = token_str(src, name);
            match find_seen(src, acc.seen, text) {
                Some(first) => Err(
                    ParserError::DuplicateSection { at: name.span, other: first.span },
                ),
                None => match spec_section_of(text) {
                    None => Err(ParserError::UnknownSectionName { at: name.span }),
                    Some(SectionId::Initial) => match spec_parse_single(tokens, j) {
                        Err(e) => Err(e),
                        Ok((t, k)) => spec_parse_sections(
                            src,
                            tokens,
                            k,
                            SectionAcc { start_state: Some(t), seen: acc.seen.push(name), ..acc },
                        ),
                    },
                    Some(SectionId::Final) => match spec_parse_list(tokens, j) {
                        Err(e) => Err(e),
                        Ok((v, k)) => spec_parse_sections(
                            src,
                            tokens,
                            k,
                            SectionAcc { final_states: Some(v), seen: acc.seen.push(name), ..acc },
                        ),
                    },
                    Some(SectionId::States) => match spec_parse_list(tokens, j) {
                        Err(e) => Err(e),
                        Ok((v, k)) => spec_parse_sections(
                            src,
                            tokens,
                            k,
                            SectionAcc { states: Some(v), seen: acc.seen.push(name), ..acc },
                        ),
                    },
                    Some(SectionId::Alphabet) => match spec_parse_list(tokens, j) {
                        Err(e) => Err(e),
                        Ok((v, k)) => spec_parse_sections(
                            src,
                            tokens,
                            k,
                            SectionAcc { alphabet: Some(v), seen: acc.seen.push(name), ..acc },
                        ),
                    },
                    Some(SectionId::StackAlphabet) => match spec_parse_list(tokens, j) {
                        Err(e) => Err(e),
                        Ok((v, k)) => spec_parse_sections(
                            src,
                            tokens,
                            k,
                            SectionAcc { stack_alphabet: Some(v), seen: acc.seen.push(name), ..acc },
                        ),
                    },
                    Some(SectionId::StartStack) => match spec_parse_single(tokens, j) {
                        Err(e) => Err(e),
                        Ok((t, k)) => spec_parse_sections(
                            src,
                            tokens,
                            k,
                            SectionAcc { start_stack: Some(t), seen: acc.seen.push(name), ..acc },
                        ),
                    },
                    Some(SectionId::TapeAlphabet) => match spec_parse_list(tokens, j) {
                        Err(e) => Err(e),
                        Ok((v, k)) => spec_parse_sections(
                            src,
                            tokens,
                            k,
                            SectionAcc { tape_alphabet: Some(v), seen: acc.seen.push(name), ..acc },
                        ),
                    },
                    Some(SectionId::BlankSymbol) => match spec_parse_single(tokens, j) {
                        Err(e) => Err(e),
                        Ok((t, k)) => spec_parse_sections(
                            src,
                            tokens,
                            k,
                            SectionAcc { blank_symbol: Some(t), seen: acc.seen.push(name), ..acc },
                        ),
                    },
                    Some(SectionId::Transitions) => match spec_parse_transitions(tokens, j) {
                        Err(e) => Err(e),
                        Ok((v, k)) => spec_parse_sections(
                            src,
                            tokens,
                            k,
                            SectionAcc { transitions: Some(v), seen: acc.seen.push(name), ..acc },
                        ),
                    },
                },
            }
        },
    }
}

#[via_fn]
proof fn spec_parse_sections_dec(src: Seq<char>, tokens: Seq<Token>, i: int, acc: SectionAcc) {
    if 0 <= i {
        match spec_parse_section(tokens, i) {
            Ok(Some((name, j))) => {
                lemma_parse_list_pos(tokens, j);
                lemma_parse_transitions_pos(tokens, j);
            },
            _ => {},
        }
    }
}

/// The machine description a token stream denotes.
pub open spec fn spec_parse(src: Seq<char>, tokens: Seq<Token>) -> Result<
    PartialMachineInfoView,
    ParserError,
> {
    spec_parse_sections(src, tokens, 0, acc_empty())
}

/// The section-based parser over a lexed token stream.
pub struct Parser;

impl Parser {
    /// Turns a source buffer into a token sequence, ending with an
    /// end-of-input sentinel token of zero length.
    pub fn lex(input: &[char]) -> (r: Result<Vec<Token>, LexerError>)
        ensures
            match r {
                Ok(tokens) => spec_lex(input@) == Ok::<Seq<Token>, LexerError>(tokens@)
                    && all_in_bounds(input@, tokens@),
                Err(e) => spec_lex(input@) == Err::<Seq<Token>, LexerError>(e),
            },
    {
        let mut tokens: Vec<Token> = Vec::new();
        proof {
            lemma_lex_in_bounds(input@, 0, None);
        }
        match lex_from(input, 0, None, &mut tokens) {
            Ok(()) => Ok(tokens),
            Err(e) => Err(e),
        }
    }
}


/// Compares two character slices for equality of contents.
pub(crate) fn chars_eq(a: &[char], b: &[char]) -> (r: bool)
    ensures
        r == (a@ == b@),
{
    if a.len() != b.len() {
        proof {
            if a@ == b@ {
                assert(a@.len() == b@.len());
            }
        }
        return false;
    }
    let n = a.len();
    let mut k: usize = 0;
    while k < n
        invariant
            0 <= k <= n,
            n == a@.len() == b@.len(),
            forall|m: int| 0 <= m < k ==> a@[m] == b@[m],
        decreases n - k,
    {
        if a[k] != b[k] {
            proof {
                if a@ == b@ {
                    assert(a@[k as int] == b@[k as int]);
                }
            }
            return false;
        }
        k = k + 1;
    }
    proof {
        assert(a@ =~= b@);
    }
    true
}

/// Checks at run time that every token's span lies inside the source buffer,
/// so that an unverified caller can establish what `Parser::parse` and the
/// validators require.
pub fn tokens_in_bounds(src: &[char], tokens: &Vec<Token>) -> (r: bool)
    ensures
        r == all_in_bounds(src@, tokens@),
{
    let n = src.len();
    let mut k: usize = 0;
    while k < tokens.len()
        invariant
            0 <= k <= tokens@.len(),
            n == src@.len(),
            forall|m: int| 0 <= m < k ==> token_in_bounds(#[trigger] tokens@[m], src@.len() as int),
        decreases tokens@.len() - k,
    {
        let t = tokens[k];
        if !(t.span.offset <= n && t.span.len <= n - t.span.offset) {
            return false;
        }
        k = k + 1;
    }
    true
}

/// The first already-seen section name token with the given text.
fn find_seen_exec(src: &[char], seen: &Vec<Token>, text: &Vec<char>) -> (r: Option<Token>)
    requires
        all_in_bounds(src@, seen@),
    ensures
        r == find_seen(src@, seen@, text@),
{
    let n = seen.len();
    let mut k: usize = 0;
    proof {
        assert(seen@.skip(0) =~= seen@);
    }
    while k < n
        invariant
            0 <= k <= n,
            n == seen@.len(),
            all_in_bounds(src@, seen@),
            find_seen(src@, seen@, text@) == find_seen(src@, seen@.skip(k as int), text@),
        decreases n - k,
    {
        let t = seen[k];
        let ttext = t.src(src);
        proof {
            assert(seen@.skip(k as int)[0] == seen@[k as int]);
            assert(seen@.skip(k as int).drop_first() =~= seen@.skip(k as int + 1));
        }
        if chars_eq(ttext.as_slice(), text.as_slice()) {
            return Some(t);
        }
        k = k + 1;
    }
    proof {
        assert(seen@.skip(n as int).len() == 0);
    }
    None
}

/// The token at position `i`, demanded to be of the given kind.
fn expect(tokens: &Vec<Token>, i: usize, kind: TokenKind, exp: Expected) -> (r: Result<
    Token,
    ParserError,
>)
    ensures
        ({
            let s = spec_expect(tokens@, i as int, kind, exp);
            match r {
                Ok(t) => s == Ok::<Token, ParserError>(t) && i < tokens@.len(),
                Err(e) => s == Err::<Token, ParserError>(e),
            }
        }),
{
    if i >= tokens.len() {
        return Err(ParserError::UnexpectedEOF);
    }
    let t = tokens[i];
    if t.kind == kind {
        Ok(t)
    } else if t.kind == TokenKind::EOF {
        Err(ParserError::UnexpectedEOF)
    } else {
        Err(ParserError::UnexpectedToken { at: t.span, expected: exp })
    }
}

/// A section header `[` name `]`, or `None` at the end of the stream.
fn parse_section(tokens: &Vec<Token>, i: usize) -> (r: Result<Option<(Token, usize)>, ParserError>)
    ensures
        ({
            let s = spec_parse_section(tokens@, i as int);
            match r {
                Ok(None) => s == Ok::<Option<(Token, int)>, ParserError>(None),
                Ok(Some((t, j))) => s == Ok::<Option<(Token, int)>, ParserError>(Some((t, j as int)))
                    && i < j <= tokens@.len(),
                Err(e) => s == Err::<Option<(Token, int)>, ParserError>(e),
            }
        }),
{
    if i >= tokens.len() {
        return Ok(None);
    }
    let t = tokens[i];
    if t.kind == TokenKind::EOF {
        return Ok(None);
    }
    if t.kind != TokenKind::LeftSquareBracket {
        return Err(ParserError::UnexpectedToken { at: t.span, expected: Expected::LeftSquareBracket });
    }
    let name = match expect(tokens, i + 1, TokenKind::Identifier, Expected::Identifier) {
        Ok(t) => t,
        Err(e) => {
            return Err(e);
        },
    };
    match expect(tokens, i + 2, TokenKind::RightSquareBracket, Expected::RightSquareBracket) {
        Ok(_) => Ok(Some((name, i + 3))),
        Err(e) => Err(e),
    }
}

/// A single-identifier section body.
fn parse_single(tokens: &Vec<Token>, i: usize) -> (r: Result<(Token, usize), ParserError>)
    ensures
        ({
            let s = spec_parse_single(tokens@, i as int);
            match r {
                Ok((t, j)) => s == Ok::<(Token, int), ParserError>((t, j as int)) && i < j
                    <= tokens@.len(),
                Err(e) => s == Err::<(Token, int), ParserError>(e),
            }
        }),
{
    let n = tokens.len();
    match expect(tokens, i, TokenKind::Identifier, Expected::Identifier) {
        Ok(t) => Ok((t, i + 1)),
        Err(e) => Err(e),
    }
}

/// A comma-separated identifier list body, appended to `out`.
fn parse_list(tokens: &Vec<Token>, i: usize, out: &mut Vec<Token>) -> (r: Result<usize, ParserError>)
    requires
        i <= tokens@.len(),
    ensures
        ({
            let s = spec_parse_list(tokens@, i as int);
            match r {
                Ok(j) => s is Ok && s->Ok_0.1 == j as int && final(out)@ == old(out)@ + s->Ok_0.0
                    && i < j <= tokens@.len(),
                Err(e) => s == Err::<(Seq<Token>, int), ParserError>(e),
            }
        }),
    decreases tokens@.len() - i,
{
    if i >= tokens.len() {
        return Err(ParserError::UnexpectedEOF);
    }
    let t = tokens[i];
    if t.kind == TokenKind::EOF {
        return Err(ParserError::UnexpectedEOF);
    }
    if t.kind != TokenKind::Identifier {
        return Err(ParserError::UnexpectedToken { at: t.span, expected: Expected::LeftSquareBracket });
    }
    out.push(t);
    if i + 1 >= tokens.len() {
        assert(out@ =~= old(out)@ + seq![t]);
        return Ok(i + 1);
    }
    let p = tokens[i + 1];
    if p.kind == TokenKind::Comma {
        let r = parse_list(tokens, i + 2, out);
        proof {
            let s2 = spec_parse_list(tokens@, i + 2);
            if s2 is Ok {
                assert(out@ =~= old(out)@ + (seq![t] + s2->Ok_0.0));
            }
        }
        r
    } else if p.kind == TokenKind::EOF || p.kind == TokenKind::LeftSquareBracket {
        assert(out@ =~= old(out)@ + seq![t]);
        Ok(i + 1)
    } else {
        Err(ParserError::UnexpectedToken { at: p.span, expected: Expected::Comma })
    }
}

/// The optional second `, direction` group after a first operation.
fn parse_second_op(
    tokens: &Vec<Token>,
    k: usize,
    st: Option<StackTransition>,
    dir: Option<Direction>,
) -> (r: Result<((Option<StackTransition>, Option<Direction>), usize), ParserError>)
    ensures
        ({
            let s = spec_parse_second_op(tokens@, k as int, st, dir);
            match r {
                Ok((p, j)) => s == Ok::<((Option<StackTransition>, Option<Direction>), int), ParserError>(
                    (p, j as int),
                ) && k <= j,
                Err(e) => s == Err::<((Option<StackTransition>, Option<Direction>), int), ParserError>(e),
            }
        }),
{
    if k >= tokens.len() || tokens[k].kind != TokenKind::Comma {
        return Ok(((st, dir), k));
    }
    if k + 1 >= tokens.len() {
        return Err(ParserError::UnexpectedEOF);
    }
    let d = tokens[k + 1];
    if d.kind == TokenKind::Left {
        Ok(((st, Some(Direction::Left)), k + 2))
    } else if d.kind == TokenKind::Right {
        Ok(((st, Some(Direction::Right)), k + 2))
    } else if d.kind == TokenKind::EOF {
        Err(ParserError::UnexpectedEOF)
    } else {
        Err(ParserError::UnexpectedToken { at: d.span, expected: Expected::DirectionWord })
    }
}

/// The optional operation list after a destination state.
fn parse_trans_ops(tokens: &Vec<Token>, k: usize) -> (r: Result<
    ((Option<StackTransition>, Option<Direction>), usize),
    ParserError,
>)
    ensures
        ({
            let s = spec_parse_trans_ops(tokens@, k as int);
            match r {
                Ok((p, j)) => s == Ok::<((Option<StackTransition>, Option<Direction>), int), ParserError>(
                    (p, j as int),
                ) && k <= j,
                Err(e) => s == Err::<((Option<StackTransition>, Option<Direction>), int), ParserError>(e),
            }
        }),
{
    if k >= tokens.len() || tokens[k].kind != TokenKind::Comma {
        return Ok(((None, None), k));
    }
    if k + 1 >= tokens.len() {
        return Err(ParserError::UnexpectedEOF);
    }
    let op = tokens[k + 1];
    if op.kind == TokenKind::Push || op.kind == TokenKind::Write {
        match expect(tokens, k + 2, TokenKind::Colon, Expected::Colon) {
            Ok(_) => {},
            Err(e) => {
                return Err(e);
            },
        }
        let sym = match expect(tokens, k + 3, TokenKind::Identifier, Expected::Identifier) {
            Ok(t) => t,
            Err(e) => {
                return Err(e);
            },
        };
        let st = if op.kind == TokenKind::Push {
            StackTransition::Push(sym)
        } else {
            StackTransition::Write(sym)
        };
        parse_second_op(tokens, k + 4, Some(st), None)
    } else if op.kind == TokenKind::Pop {
        parse_second_op(tokens, k + 2, Some(StackTransition::Pop), None)
    } else if op.kind == TokenKind::Noop {
        parse_second_op(tokens, k + 2, Some(StackTransition::NoOp), None)
    } else if op.kind == TokenKind::Left {
        parse_second_op(tokens, k + 2, None, Some(Direction::Left))
    } else if op.kind == TokenKind::Right {
        parse_second_op(tokens, k + 2, None, Some(Direction::Right))
    } else if op.kind == TokenKind::EOF {
        Err(ParserError::UnexpectedEOF)
    } else {
        Err(ParserError::UnexpectedToken { at: op.span, expected: Expected::StackOpOrDirection })
    }
}

/// The part of a transition after the consumed-symbol group.
fn parse_trans_rest(tokens: &Vec<Token>, j: usize, from: TransitionFrom) -> (r: Result<
    (TransitionInfo, usize),
    ParserError,
>)
    ensures
        ({
            let s = spec_parse_trans_rest(tokens@, j as int, from);
            match r {
                Ok((tr, k)) => s == Ok::<(TransitionInfo, int), ParserError>((tr, k as int)) && j < k
                    <= tokens@.len(),
                Err(e) => s == Err::<(TransitionInfo, int), ParserError>(e),
            }
        }),
{
    let n = tokens.len();
    match expect(tokens, j, TokenKind::RightParen, Expected::RightParen) {
        Ok(_) => {},
        Err(e) => {
            return Err(e);
        },
    }
    match expect(tokens, j + 1, TokenKind::Arrow, Expected::Arrow) {
        Ok(_) => {},
        Err(e) => {
            return Err(e);
        },
    }
    match expect(tokens, j + 2, TokenKind::LeftParen, Expected::LeftParen) {
        Ok(_) => {},
        Err(e) => {
            return Err(e);
        },
    }
    let to_tok = match expect(tokens, j + 3, TokenKind::Identifier, Expected::Identifier) {
        Ok(t) => t,
        Err(e) => {
            return Err(e);
        },
    };
    let (ops, k) = match parse_trans_ops(tokens, j + 4) {
        Ok(p) => p,
        Err(e) => {
            return Err(e);
        },
    };
    match expect(tokens, k, TokenKind::RightParen, Expected::RightParen) {
        Ok(_) => Ok((TransitionInfo { from, to: TransitionTo(to_tok, ops.0, ops.1) }, k + 1)),
        Err(e) => Err(e),
    }
}

/// One whole transition starting at `i`.
fn parse_one_transition(tokens: &Vec<Token>, i: usize) -> (r: Result<
    (TransitionInfo, usize),
    ParserError,
>)
    requires
        i < tokens@.len(),
    ensures
        ({
            let s = spec_parse_one_transition(tokens@, i as int);
            match r {
                Ok((tr, j)) => s == Ok::<(TransitionInfo, int), ParserError>((tr, j as int)) && i < j
                    <= tokens@.len(),
                Err(e) => s == Err::<(TransitionInfo, int), ParserError>(e),
            }
        }),
{
    let n = tokens.len();
    let from_tok = tokens[i];
    match expect(tokens, i + 1, TokenKind::LeftParen, Expected::LeftParen) {
        Ok(_) => {},
        Err(e) => {
            return Err(e);
        },
    }
    let sym = match expect(tokens, i + 2, TokenKind::Identifier, Expected::Identifier) {
        Ok(t) => t,
        Err(e) => {
            return Err(e);
        },
    };
    if i + 3 < tokens.len() && tokens[i + 3].kind == TokenKind::Comma {
        let ss = match expect(tokens, i + 4, TokenKind::Identifier, Expected::Identifier) {
            Ok(t) => t,
            Err(e) => {
                return Err(e);
            },
        };
        parse_trans_rest(
            tokens,
            i + 5,
            TransitionFrom { initial: from_tok, with_symbol: sym, with_stack_symbol: Some(ss) },
        )
    } else {
        parse_trans_rest(
            tokens,
            i + 3,
            TransitionFrom { initial: from_tok, with_symbol: sym, with_stack_symbol: None },
        )
    }
}

/// The transitions section body, appended to `out`.
fn parse_transitions(tokens: &Vec<Token>, i: usize, out: &mut Vec<TransitionInfo>) -> (r: Result<
    usize,
    ParserError,
>)
    requires
        i <= tokens@.len(),
    ensures
        ({
            let s = spec_parse_transitions(tokens@, i as int);
            match r {
                Ok(j) => s is Ok && s->Ok_0.1 == j as int && final(out)@ == old(out)@ + s->Ok_0.0
                    && i <= j <= tokens@.len(),
                Err(e) => s == Err::<(Seq<TransitionInfo>, int), ParserError>(e),
            }
        }),
    decreases tokens@.len() - i,
{
    if i >= tokens.len() {
        return Err(ParserError::UnexpectedEOF);
    }
    let t = tokens[i];
    if t.kind == TokenKind::EOF || t.kind == TokenKind::LeftSquareBracket {
        assert(out@ =~= old(out)@ + Seq::<TransitionInfo>::empty());
        return Ok(i);
    }
    if t.kind != TokenKind::Identifier {
        return Err(ParserError::UnexpectedToken { at: t.span, expected: Expected::LeftSquareBracket });
    }
    let (tr, j) = match parse_one_transition(tokens, i) {
        Ok(p) => p,
        Err(e) => {
            return Err(e);
        },
    };
    out.push(tr);
    let r = parse_transitions(tokens, j, out);
    proof {
        let s2 = spec_parse_transitions(tokens@, j as int);
        if s2 is Ok {
            assert(out@ =~= old(out)@ + (seq![tr] + s2->Ok_0.0));
        }
    }
    r
}

impl Parser {
    /// Consumes a token stream and produces the untyped machine description,
    /// or the first error the section grammar detects.
    pub fn parse(src: &[char], input: Vec<Token>) -> (r: Result<PartialMachineInfo, ParserError>)
        requires
            all_in_bounds(src@, input@),
        ensures
            ({
                let s = spec_parse(src@, input@);
                match r {
                    Ok(m) => s == Ok::<PartialMachineInfoView, ParserError>(m@) && pm_in_bounds(
                        m@,
                        src@,
                    ),
                    Err(e) => s == Err::<PartialMachineInfoView, ParserError>(e),
                }
            }),
    {
        proof {
            lemma_parse_in_bounds(src@, input@);
        }
        let tokens = input;
        let mut states: Option<Vec<Token>> = None;
        let mut alphabet: Option<Vec<Token>> = None;
        let mut transitions: Option<Vec<TransitionInfo>> = None;
        let mut start_state: Option<Token> = None;
        let mut final_states: Option<Vec<Token>> = None;
        let mut stack_alphabet: Option<Vec<Token>> = None;
        let mut start_stack: Option<Token> = None;
        let mut tape_alphabet: Option<Vec<Token>> = None;
        let mut blank_symbol: Option<Token> = None;
        let mut seen: Vec<Token> = Vec::new();
        let mut i: usize = 0;
        let ghost mut acc: SectionAcc = acc_empty();
        loop
            invariant
                tokens@ == input@,
                i <= tokens@.len(),
                all_in_bounds(src@, tokens@),
                all_in_bounds(src@, seen@),
                spec_parse(src@, tokens@) == spec_parse_sections(src@, tokens@, i as int, acc),
                acc.seen == seen@,
                acc.states == opt_tokens_view(states),
                acc.alphabet == opt_tokens_view(alphabet),
                acc.transitions == opt_trans_view(transitions),
                acc.start_state == start_state,
                acc.final_states == opt_tokens_view(final_states),
                acc.stack_alphabet == opt_tokens_view(stack_alphabet),
                acc.start_stack == start_stack,
                acc.tape_alphabet == opt_tokens_view(tape_alphabet),
                acc.blank_symbol == blank_symbol,
            ensures
                spec_parse(src@, tokens@) == spec_finish(acc),
                acc.states == opt_tokens_view(states),
                acc.alphabet == opt_tokens_view(alphabet),
                acc.transitions == opt_trans_view(transitions),
                acc.start_state == start_state,
                acc.final_states == opt_tokens_view(final_states),
                acc.stack_alphabet == opt_tokens_view(stack_alphabet),
                acc.start_stack == start_stack,
                acc.tape_alphabet == opt_tokens_view(tape_alphabet),
                acc.blank_symbol == blank_symbol,
            decreases tokens@.len() - i,
        {
            let (name, j) = match parse_section(&tokens, i) {
                Ok(Some(p)) => p,
                Ok(None) => {
                    break;
                },
                Err(e) => {
                    return Err(e);
                },
            };
            proof {
                assert(name == tokens@[i + 1]);
                assert(token_in_bounds(name, src@.len() as int));
            }
            let text = name.src(src);
            match find_seen_exec(src, &seen, &text) {
                Some(first) => {
                    return Err(
                        ParserError::DuplicateSection { at: name.span, other: first.span },
                    );
                },
                None => {},
            }
            let id = match section_of(text.as_slice()) {
                Some(id) => id,
                None => {
                    return Err(ParserError::UnknownSectionName { at: name.span });
                },
            };
            match id {
                SectionId::Initial => {
                    let (t, k) = match parse_single(&tokens, j) {
                        Ok(p) => p,
                        Err(e) => {
                            return Err(e);
                        },
                    };
                    start_state = Some(t);
                    proof {
                        acc = SectionAcc { start_state: Some(t), seen: acc.seen.push(name), ..acc };
                    }
                    i = k;
                },
                SectionId::Final => {
                    let mut v: Vec<Token> = Vec::new();
                    let k = match parse_list(&tokens, j, &mut v) {
                        Ok(k) => k,
                        Err(e) => {
                            return Err(e);
                        },
                    };
                    final_states = Some(v);
                    proof {
                        let body = spec_parse_list(tokens@, j as int)->Ok_0.0;
                        acc = SectionAcc { final_states: Some(body), seen: acc.seen.push(name), ..acc };
                    }
                    i = k;
                },
                SectionId::States => {
                    let mut v: Vec<Token> = Vec::new();
                    let k = match parse_list(&tokens, j, &mut v) {
                        Ok(k) => k,
                        Err(e) => {
                            return Err(e);
                        },
                    };
                    states = Some(v);
                    proof {
                        let body = spec_parse_list(tokens@, j as int)->Ok_0.0;
                        acc = SectionAcc { states: Some(body), seen: acc.seen.push(name), ..acc };
                    }
                    i = k;
                },
                SectionId::Alphabet => {
                    let mut v: Vec<Token> = Vec::new();
                    let k = match parse_list(&tokens, j, &mut v) {
                        Ok(k) => k,
                        Err(e) => {
                            return Err(e);
                        },
                    };
                    alphabet = Some(v);
                    proof {
                        let body = spec_parse_list(tokens@, j as int)->Ok_0.0;
                        acc = SectionAcc { alphabet: Some(body), seen: acc.seen.push(name), ..acc };
                    }
                    i = k;
                },
                SectionId::StackAlphabet => {
                    let mut v: Vec<Token> = Vec::new();
                    let k = match parse_list(&tokens, j, &mut v) {
                        Ok(k) => k,
                        Err(e) => {
                            return Err(e);
                        },
                    };
                    stack_alphabet = Some(v);
                    proof {
                        let body = spec_parse_list(tokens@, j as int)->Ok_0.0;
                        acc = SectionAcc { stack_alphabet: Some(body), seen: acc.seen.push(name), ..acc };
                    }
                    i = k;
                },
                SectionId::StartStack => {
                    let (t, k) = match parse_single(&tokens, j) {
                        Ok(p) => p,
                        Err(e) => {
                            return Err(e);
                        },
                    };
                    start_stack = Some(t);
                    proof {
                        acc = SectionAcc { start_stack: Some(t), seen: acc.seen.push(name), ..acc };
                    }
                    i = k;
                },
                SectionId::TapeAlphabet => {
                    let mut v: Vec<Token> = Vec::new();
                    let k = match parse_list(&tokens, j, &mut v) {
                        Ok(k) => k,
                        Err(e) => {
                            return Err(e);
                        },
                    };
                    tape_alphabet = Some(v);
                    proof {
                        let body = spec_parse_list(tokens@, j as int)->Ok_0.0;
                        acc = SectionAcc { tape_alphabet: Some(body), seen: acc.seen.push(name), ..acc };
                    }
                    i = k;
                },
                SectionId::BlankSymbol => {
                    let (t, k) = match parse_single(&tokens, j) {
                        Ok(p) => p,
                        Err(e) => {
                            return Err(e);
                        },
                    };
                    blank_symbol = Some(t);
                    proof {
                        acc = SectionAcc { blank_symbol: Some(t), seen: acc.seen.push(name), ..acc };
                    }
                    i = k;
                },
                SectionId::Transitions => {
                    let mut v: Vec<TransitionInfo> = Vec::new();
                    let k = match parse_transitions(&tokens, j, &mut v) {
                        Ok(k) => k,
                        Err(e) => {
                            return Err(e);
                        },
                    };
                    transitions = Some(v);
                    proof {
                        let body = spec_parse_transitions(tokens@, j as int)->Ok_0.0;
                        acc = SectionAcc { transitions: Some(body), seen: acc.seen.push(name), ..acc };
                    }
                    i = k;
                },
            }
            seen.push(name);
        }
        let states = match states {
            Some(v) => v,
            None => {
                return Err(ParserError::MissingSection { section: SectionName::States });
            },
        };
        let alphabet = match alphabet {
            Some(v) => v,
            None => {
                return Err(ParserError::MissingSection { section: SectionName::Alphabet });
            },
        };
        let transitions = match transitions {
            Some(v) => v,
            None => {
                return Err(ParserError::MissingSection { section: SectionName::Transitions });
            },
        };
        let start_state = match start_state {
            Some(t) => t,
            None => {
                return Err(ParserError::MissingSection { section: SectionName::StartState });
            },
        };
        let final_states = match final_states {
            Some(v) => v,
            None => {
                return Err(ParserError::MissingSection { section: SectionName::FinalStates });
            },
        };
        Ok(
            PartialMachineInfo {
                states,
                alphabet,
                transitions,
                start_state,
                final_states,
                stack_alphabet,
                start_stack,
                tape_alphabet,
                blank_symbol,
            },
        )
    }
}


/// Whether every token of a raw transition lies inside a source buffer of
/// length `n`.
pub open spec fn tr_in_bounds(tr: TransitionInfo, n: int) -> bool {
    &&& token_in_bounds(tr.from.initial, n)
    &&& token_in_bounds(tr.from.with_symbol, n)
    &&& (tr.from.with_stack_symbol matches Some(t) ==> token_in_bounds(t, n))
    &&& token_in_bounds(tr.to.0, n)
    &&& (tr.to.1 matches Some(StackTransition::Push(t)) ==> token_in_bounds(t, n))
    &&& (tr.to.1 matches Some(StackTransition::Write(t)) ==> token_in_bounds(t, n))
}

/// Whether every token of a machine description lies inside the source
/// buffer, so that each token's text can be resolved.
pub open spec fn pm_in_bounds(m: PartialMachineInfoView, src: Seq<char>) -> bool {
    &&& all_in_bounds(src, m.states)
    &&& all_in_bounds(src, m.alphabet)
    &&& all_in_bounds(src, m.final_states)
    &&& token_in_bounds(m.start_state, src.len() as int)
    &&& forall|k: int|
        0 <= k < m.transitions.len() ==> tr_in_bounds(#[trigger] m.transitions[k], src.len() as int)
    &&& (m.stack_alphabet matches Some(v) ==> all_in_bounds(src, v))
    &&& (m.start_stack matches Some(t) ==> token_in_bounds(t, src.len() as int))
    &&& (m.tape_alphabet matches Some(v) ==> all_in_bounds(src, v))
    &&& (m.blank_symbol matches Some(t) ==> token_in_bounds(t, src.len() as int))
}

fn token_ok(t: &Token, n: usize) -> (r: bool)
    ensures
        r == token_in_bounds(*t, n as int),
{
    t.span.offset <= n && t.span.len <= n - t.span.offset
}

fn opt_token_ok(t: &Option<Token>, n: usize) -> (r: bool)
    ensures
        r == (t matches Some(t0) ==> token_in_bounds(*t0, n as int)),
{
    match t {
        Some(t0) => token_ok(t0, n),
        None => true,
    }
}

fn list_ok(src: &[char], v: &Vec<Token>) -> (r: bool)
    ensures
        r == all_in_bounds(src@, v@),
{
    tokens_in_bounds(src, v)
}

fn opt_list_ok(src: &[char], v: &Option<Vec<Token>>) -> (r: bool)
    ensures
        r == (v matches Some(v0) ==> all_in_bounds(src@, (*v0)@)),
{
    match v {
        Some(v0) => tokens_in_bounds(src, v0),
        None => true,
    }
}

impl PartialMachineInfo {
    /// Checks at run time that every token of this description lies inside
    /// the source buffer, which is what each validator requires.
    pub fn check_in_bounds(&self, src: &[char]) -> (r: bool)
        ensures
            r == pm_in_bounds(self@, src@),
    {
        let n = src.len();
        if !(list_ok(src, &self.states) && list_ok(src, &self.alphabet) && list_ok(
            src,
            &self.final_states,
        ) && token_ok(&self.start_state, n) && opt_list_ok(src, &self.stack_alphabet)
            && opt_token_ok(&self.start_stack, n) && opt_list_ok(src, &self.tape_alphabet)
            && opt_token_ok(&self.blank_symbol, n)) {
            return false;
        }
        let mut k: usize = 0;
        while k < self.transitions.len()
            invariant
                0 <= k <= self.transitions@.len(),
                n == src@.len(),
                forall|m: int|
                    0 <= m < k ==> tr_in_bounds(#[trigger] self.transitions@[m], src@.len() as int),
        decreases self.transitions@.len() - k,
        {
            let tr = &self.transitions[k];
            let ok = token_ok(&tr.from.initial, n) && token_ok(&tr.from.with_symbol, n)
                && opt_token_ok(&tr.from.with_stack_symbol, n) && token_ok(&tr.to.0, n) && (match &tr.to.1 {
                Some(StackTransition::Push(t)) => token_ok(t, n),
                Some(StackTransition::Write(t)) => token_ok(t, n),
                _ => true,
            });
            if !ok {
                assert(self@.transitions == self.transitions@);
                assert(!tr_in_bounds(self@.transitions[k as int], src@.len() as int));
                return false;
            }
            k = k + 1;
        }
        true
    }
}


proof fn lemma_parse_list_bounds(src: Seq<char>, tokens: Seq<Token>, i: int)
    requires
        0 <= i,
        all_in_bounds(src, tokens),
    ensures
        spec_parse_list(tokens, i) matches Ok(p) ==> all_in_bounds(src, p.0),
    decreases tokens.len() - i,
{
    let r = spec_parse_list(tokens, i);
    if r is Ok {
        let body = r->Ok_0.0;
        if i < tokens.len() && tokens[i].kind == TokenKind::Identifier {
            let t = tokens[i];
            if i + 1 < tokens.len() && tokens[i + 1].kind == TokenKind::Comma {
                lemma_parse_list_bounds(src, tokens, i + 2);
                let rest = spec_parse_list(tokens, i + 2)->Ok_0.0;
                assert forall|k: int| 0 <= k < body.len() implies token_in_bounds(
                    #[trigger] body[k],
                    src.len() as int,
                ) by {
                    if k == 0 {
                        assert(body[0] == t);
                    } else {
                        assert(body[k] == rest[k - 1]);
                    }
                }
            } else {
                assert(body == seq![t]);
                assert(body[0] == t);
            }
        }
    }
}

proof fn lemma_second_op_bounds(
    src: Seq<char>,
    tokens: Seq<Token>,
    k: int,
    st: Option<StackTransition>,
    dir: Option<Direction>,
)
    requires
        all_in_bounds(src, tokens),
        st matches Some(StackTransition::Push(t)) ==> token_in_bounds(t, src.len() as int),
        st matches Some(StackTransition::Write(t)) ==> token_in_bounds(t, src.len() as int),
    ensures
        spec_parse_second_op(tokens, k, st, dir) matches Ok(p) ==> {
            &&& (p.0.0 matches Some(StackTransition::Push(t)) ==> token_in_bounds(
                t,
                src.len() as int,
            ))
            &&& (p.0.0 matches Some(StackTransition::Write(t)) ==> token_in_bounds(
                t,
                src.len() as int,
            ))
        },
{
}

proof fn lemma_trans_ops_bounds(src: Seq<char>, tokens: Seq<Token>, k: int)
    requires
        0 <= k,
        all_in_bounds(src, tokens),
    ensures
        spec_parse_trans_ops(tokens, k) matches Ok(p) ==> {
            &&& (p.0.0 matches Some(StackTransition::Push(t)) ==> token_in_bounds(
                t,
                src.len() as int,
            ))
            &&& (p.0.0 matches Some(StackTransition::Write(t)) ==> token_in_bounds(
                t,
                src.len() as int,
            ))
        },
{
    lemma_second_op_bounds(src, tokens, k + 2, Some(StackTransition::Pop), None);
    lemma_second_op_bounds(src, tokens, k + 2, Some(StackTransition::NoOp), None);
    lemma_second_op_bounds(src, tokens, k + 2, None, Some(Direction::Left));
    lemma_second_op_bounds(src, tokens, k + 2, None, Some(Direction::Right));
    if k < tokens.len() && tokens[k].kind == TokenKind::Comma && k + 1 < tokens.len() {
        let op = tokens[k + 1];
        if op.kind == TokenKind::Push || op.kind == TokenKind::Write {
            let r = spec_expect(tokens, k + 3, TokenKind::Identifier, Expected::Identifier);
            if r is Ok {
                let sym = r->Ok_0;
                let st2 = if op.kind == TokenKind::Push {
                    StackTransition::Push(sym)
                } else {
                    StackTransition::Write(sym)
                };
                lemma_second_op_bounds(src, tokens, k + 4, Some(st2), None);
            }
        }
    }
}

proof fn lemma_trans_rest_bounds(src: Seq<char>, tokens: Seq<Token>, j: int, from: TransitionFrom)
    requires
        0 <= j,
        all_in_bounds(src, tokens),
        token_in_bounds(from.initial, src.len() as int),
        token_in_bounds(from.with_symbol, src.len() as int),
        from.with_stack_symbol matches Some(t) ==> token_in_bounds(t, src.len() as int),
    ensures
        spec_parse_trans_rest(tokens, j, from) matches Ok(p) ==> tr_in_bounds(
            p.0,
            src.len() as int,
        ),
{
    lemma_trans_ops_bounds(src, tokens, j + 4);
}

proof fn lemma_one_transition_bounds(src: Seq<char>, tokens: Seq<Token>, i: int)
    requires
        0 <= i < tokens.len(),
        all_in_bounds(src, tokens),
    ensures
        spec_parse_one_transition(tokens, i) matches Ok(p) ==> tr_in_bounds(
            p.0,
            src.len() as int,
        ),
{
    let from_tok = tokens[i];
    let r = spec_expect(tokens, i + 2, TokenKind::Identifier, Expected::Identifier);
    if r is Ok {
        let sym = r->Ok_0;
        if i + 3 < tokens.len() && tokens[i + 3].kind == TokenKind::Comma {
            let r2 = spec_expect(tokens, i + 4, TokenKind::Identifier, Expected::Identifier);
            if r2 is Ok {
                lemma_trans_rest_bounds(
                    src,
                    tokens,
                    i + 5,
                    TransitionFrom {
                        initial: from_tok,
                        with_symbol: sym,
                        with_stack_symbol: Some(r2->Ok_0),
                    },
                );
            }
        } else {
            lemma_trans_rest_bounds(
                src,
                tokens,
                i + 3,
                TransitionFrom { initial: from_tok, with_symbol: sym, with_stack_symbol: None },
            );
        }
    }
}

proof fn lemma_parse_transitions_bounds(src: Seq<char>, tokens: Seq<Token>, i: int)
    requires
        0 <= i,
        all_in_bounds(src, tokens),
    ensures
        spec_parse_transitions(tokens, i) matches Ok(p) ==> forall|k: int|
            0 <= k < p.0.len() ==> tr_in_bounds(#[trigger] p.0[k], src.len() as int),
    decreases tokens.len() - i,
{
    let r = spec_parse_transitions(tokens, i);
    if r is Ok && i < tokens.len() {
        let t = tokens[i];
        if t.kind == TokenKind::Identifier {
            lemma_one_transition_pos(tokens, i);
            lemma_one_transition_bounds(src, tokens, i);
            let r1 = spec_parse_one_transition(tokens, i);
            if r1 is Ok {
                let (tr, j) = r1->Ok_0;
                lemma_parse_transitions_bounds(src, tokens, j);
                let rest = spec_parse_transitions(tokens, j)->Ok_0.0;
                let body = r->Ok_0.0;
                assert forall|k: int| 0 <= k < body.len() implies tr_in_bounds(
                    #[trigger] body[k],
                    src.len() as int,
                ) by {
                    if k == 0 {
                        assert(body[0] == tr);
                    } else {
                        assert(body[k] == rest[k - 1]);
                    }
                }
            }
        }
    }
}

/// Whether every token gathered so far lies inside the source buffer.
pub open spec fn acc_in_bounds(src: Seq<char>, acc: SectionAcc) -> bool {
    &&& (acc.states matches Some(v) ==> all_in_bounds(src, v))
    &&& (acc.alphabet matches Some(v) ==> all_in_bounds(src, v))
    &&& (acc.transitions matches Some(v) ==> forall|k: int|
        0 <= k < v.len() ==> tr_in_bounds(#[trigger] v[k], src.len() as int))
    &&& (acc.start_state matches Some(t) ==> token_in_bounds(t, src.len() as int))
    &&& (acc.final_states matches Some(v) ==> all_in_bounds(src, v))
    &&& (acc.stack_alphabet matches Some(v) ==> all_in_bounds(src, v))
    &&& (acc.start_stack matches Some(t) ==> token_in_bounds(t, src.len() as int))
    &&& (acc.tape_alphabet matches Some(v) ==> all_in_bounds(src, v))
    &&& (acc.blank_symbol matches Some(t) ==> token_in_bounds(t, src.len() as int))
}

proof fn lemma_parse_sections_bounds(src: Seq<char>, tokens: Seq<Token>, i: int, acc: SectionAcc)
    requires
        0 <= i,
        all_in_bounds(src, tokens),
        acc_in_bounds(src, acc),
    ensures
        spec_parse_sections(src, tokens, i, acc) matches Ok(m) ==> pm_in_bounds(m, src),
    decreases tokens.len() - i,
{
    match spec_parse_section(tokens, i) {
        Err(_) => {},
        Ok(None) => {},
        Ok(Some((name, j))) => {
            let text = token_str(src, name);
            if find_seen(src, acc.seen, text) is None {
                lemma_parse_list_pos(tokens, j);
                lemma_parse_transitions_pos(tokens, j);
                lemma_parse_list_bounds(src, tokens, j);
                lemma_parse_transitions_bounds(src, tokens, j);
                match spec_section_of(text) {
                    None => {},
                    Some(SectionId::Initial) => {
                        let r = spec_parse_single(tokens, j);
                        if r is Ok {
                            let (t, k) = r->Ok_0;
                            lemma_parse_sections_bounds(
                                src,
                                tokens,
                                k,
                                SectionAcc { start_state: Some(t), seen: acc.seen.push(name), ..acc },
                            );
                        }
                    },
                    Some(SectionId::Final) => {
                        let r = spec_parse_list(tokens, j);
                        if r is Ok {
                            let (v, k) = r->Ok_0;
                            lemma_parse_sections_bounds(
                                src,
                                tokens,
                                k,
                                SectionAcc { final_states: Some(v), seen: acc.seen.push(name), ..acc },
                            );
                        }
                    },
                    Some(SectionId::States) => {
                        let r = spec_parse_list(tokens, j);
                        if r is Ok {
                            let (v, k) = r->Ok_0;
                            lemma_parse_sections_bounds(
                                src,
                                tokens,
                                k,
                                SectionAcc { states: Some(v), seen: acc.seen.push(name), ..acc },
                            );
                        }
                    },
                    Some(SectionId::Alphabet) => {
                        let r = spec_parse_list(tokens, j);
                        if r is Ok {
                            let (v, k) = r->Ok_0;
                            lemma_parse_sections_bounds(
                                src,
                                tokens,
                                k,
                                SectionAcc { alphabet: Some(v), seen: acc.seen.push(name), ..acc },
                            );
                        }
                    },
                    Some(SectionId::StackAlphabet) => {
                        let r = spec_parse_list(tokens, j);
                        if r is Ok {
                            let (v, k) = r->Ok_0;
                            lemma_parse_sections_bounds(
                                src,
                                tokens,
                                k,
                                SectionAcc {
                                    stack_alphabet: Some(v),
                                    seen: acc.seen.push(name),
                                    ..acc
                                },
                            );
                        }
                    },
                    Some(SectionId::StartStack) => {
                        let r = spec_parse_single(tokens, j);
                        if r is Ok {
                            let (t, k) = r->Ok_0;
                            lemma_parse_sections_bounds(
                                src,
                                tokens,
                                k,
                                SectionAcc { start_stack: Some(t), seen: acc.seen.push(name), ..acc },
                            );
                        }
                    },
                    Some(SectionId::TapeAlphabet) => {
                        let r = spec_parse_list(tokens, j);
                        if r is Ok {
                            let (v, k) = r->Ok_0;
                            lemma_parse_sections_bounds(
                                src,
                                tokens,
                                k,
                                SectionAcc {
                                    tape_alphabet: Some(v),
                                    seen: acc.seen.push(name),
                                    ..acc
                                },
                            );
                        }
                    },
                    Some(SectionId::BlankSymbol) => {
                        let r = spec_parse_single(tokens, j);
                        if r is Ok {
                            let (t, k) = r->Ok_0;
                            lemma_parse_sections_bounds(
                                src,
                                tokens,
                                k,
                                SectionAcc {
                                    blank_symbol: Some(t),
                                    seen: acc.seen.push(name),
                                    ..acc
                                },
                            );
                        }
                    },
                    Some(SectionId::Transitions) => {
                        let r = spec_parse_transitions(tokens, j);
                        if r is Ok {
                            let (v, k) = r->Ok_0;
                            lemma_parse_sections_bounds(
                                src,
                                tokens,
                                k,
                                SectionAcc {
                                    transitions: Some(v),
                                    seen: acc.seen.push(name),
                                    ..acc
                                },
                            );
                        }
                    },
                }
            }
        },
    }
}

/// Every token of a parsed description lies inside the source buffer, since
/// the parser only hands out tokens of its input.
pub proof fn lemma_parse_in_bounds(src: Seq<char>, tokens: Seq<Token>)
    requires
        all_in_bounds(src, tokens),
    ensures
        spec_parse(src, tokens) matches Ok(m) ==> pm_in_bounds(m, src),
{
    lemma_parse_sections_bounds(src, tokens, 0, acc_empty());
}

/// The element-wise view of an optional token list.
pub open spec fn opt_tokens_view(o: Option<Vec<Token>>) -> Option<Seq<Token>> {
    match o {
        Some(v) => Some(v@),
        None => None,
    }
}

/// The element-wise view of an optional transition list.
pub open spec fn opt_trans_view(o: Option<Vec<TransitionInfo>>) -> Option<Seq<TransitionInfo>> {
    match o {
        Some(v) => Some(v@),
        None => None,
    }
}

} // verus!
