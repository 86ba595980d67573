//! The token grammar, stated over the input's characters: where trivia ends,
//! which lexeme starts at a position, and the whole token stream.
use vstd::prelude::*;
use crate::chars::{
    char_at, spec_is_ascii_digit, spec_is_continuing_alpha, spec_is_digit, spec_is_alphanumeric,
    unicode_whitespace, EOF_CHAR,
};
use crate::token::{digits_value, keyword_of, TokenKind};

verus! {

/// One recognized token: its kind, and the half-open span `start..end` of
/// the input that it covers.
pub struct Lexeme {
    pub kind: TokenKind,
    pub start: int,
    pub end: int,
}

/// Whether a run of characters satisfying `pred` goes on at `i`.
pub open spec fn continues(s: Seq<char>, i: int, pred: spec_fn(char) -> bool) -> bool {
    0 <= i < s.len() && s[i] != EOF_CHAR && pred(s[i])
}

/// The last index of the run that starts after `p` and continues while the
/// next character satisfies `pred`; `p` itself where the run is empty. The
/// run never takes in the end-of-input sentinel.
pub open spec fn run_end(s: Seq<char>, p: int, pred: spec_fn(char) -> bool) -> int
    decreases s.len() - p,
{
    if continues(s, p + 1, pred) {
        run_end(s, p + 1, pred)
    } else {
        p
    }
}

/// Where the trivia (whitespace and `//` line comments) that starts at `i`
/// ends; `in_comment` says that `i` lies inside a comment.
pub open spec fn trivia_end(s: Seq<char>, i: int, in_comment: bool) -> int
    decreases s.len() - i, if in_comment { 1int } else { 0int },
{
    let c = char_at(s, i);
    if in_comment {
        if c != EOF_CHAR && c != '\n' {
            trivia_end(s, i + 1, true)
        } else {
            trivia_end(s, i, false)
        }
    } else if c != EOF_CHAR && unicode_whitespace(c) {
        trivia_end(s, i + 1, false)
    } else if c == '/' && char_at(s, i + 1) == '/' {
        trivia_end(s, i + 1, true)
    } else {
        i
    }
}

/// The first index at or after `i` that is not trivia.
pub open spec fn skip_trivia(s: Seq<char>, i: int) -> int {
    trivia_end(s, i, false)
}

pub open spec fn digit_pred() -> spec_fn(char) -> bool {
    |c: char| spec_is_digit(c)
}

pub open spec fn alphanumeric_pred() -> spec_fn(char) -> bool {
    |c: char| spec_is_alphanumeric(c)
}

pub open spec fn continuing_alpha_pred() -> spec_fn(char) -> bool {
    |c: char| spec_is_continuing_alpha(c)
}

pub open spec fn is_exponent_marker(c: char) -> bool {
    c == 'e' || c == 'E'
}

pub open spec fn is_sign(c: char) -> bool {
    c == '+' || c == '-'
}

/// The rest of a float literal whose integer part ends at `q`, where a `.`
/// and a digit-run character follow: its kind and its last index.
pub open spec fn float_at(s: Seq<char>, q: int) -> (TokenKind, int) {
    let r = q + 2;
    let c = char_at(s, r);
    if !spec_is_ascii_digit(c) {
        (TokenKind::Invalid, if spec_is_alphanumeric(c) { run_end(s, r, alphanumeric_pred()) } else { r })
    } else {
        let t = run_end(s, r, digit_pred());
        if is_exponent_marker(char_at(s, t + 1)) {
            let u = if is_sign(char_at(s, t + 2)) { t + 2 } else { t + 1 };
            let kind = if spec_is_ascii_digit(char_at(s, u + 1)) {
                TokenKind::Float
            } else {
                TokenKind::Invalid
            };
            (kind, run_end(s, u, digit_pred()))
        } else {
            (TokenKind::Float, t)
        }
    }
}

/// The numeric literal that starts with the decimal digit at `b`.
pub open spec fn number_at(s: Seq<char>, b: int) -> Lexeme {
    let q = run_end(s, b, digit_pred());
    if char_at(s, q + 1) == '.' && spec_is_digit(char_at(s, q + 2)) {
        let (kind, e) = float_at(s, q);
        Lexeme { kind, start: b, end: e + 1 }
    } else {
        let v = digits_value(s.subrange(b, q + 1));
        let kind = if v <= u64::MAX {
            TokenKind::Integer(v as u64)
        } else {
            TokenKind::Invalid
        };
        Lexeme { kind, start: b, end: q + 1 }
    }
}

/// The identifier or keyword that starts at `b`.
pub open spec fn word_at(s: Seq<char>, b: int) -> Lexeme {
    let e = run_end(s, b, continuing_alpha_pred());
    let kind = match keyword_of(s.subrange(b, e + 1)) {
        Some(k) => TokenKind::Keyword(k),
        None => TokenKind::Ident,
    };
    Lexeme { kind, start: b, end: e + 1 }
}

pub open spec fn is_word_start(c: char) -> bool {
    ('a' <= c && c <= 'z') || ('A' <= c && c <= 'Z') || c == '_'
}

/// The kind of a token of one fixed character, if `c` is one.
pub open spec fn single_char_kind(c: char) -> Option<TokenKind> {
    if c == '+' {
        Some(TokenKind::Plus)
    } else if c == '-' {
        Some(TokenKind::Minus)
    } else if c == '/' {
        Some(TokenKind::Divide)
    } else if c == '*' {
        Some(TokenKind::Multiply)
    } else if c == '=' {
        Some(TokenKind::Assign)
    } else if c == ';' {
        Some(TokenKind::Semi)
    } else if c == '(' {
        Some(TokenKind::LParen)
    } else if c == ')' {
        Some(TokenKind::RParen)
    } else if c == '{' {
        Some(TokenKind::LCurly)
    } else if c == '}' {
        Some(TokenKind::RCurly)
    } else {
        None
    }
}

/// The token recognized at `b`, where no trivia stands.
pub open spec fn token_at(s: Seq<char>, b: int) -> Lexeme {
    let c = char_at(s, b);
    if single_char_kind(c) is Some {
        Lexeme { kind: single_char_kind(c)->0, start: b, end: b + 1 }
    } else if c == EOF_CHAR {
        Lexeme { kind: TokenKind::EOF, start: b, end: b }
    } else if c == '.' {
        if char_at(s, b + 1) == '.' {
            if char_at(s, b + 2) == '=' {
                Lexeme { kind: TokenKind::RangeEqual, start: b, end: b + 3 }
            } else {
                Lexeme { kind: TokenKind::RangeUntil, start: b, end: b + 2 }
            }
        } else {
            Lexeme { kind: TokenKind::Dereference, start: b, end: b + 1 }
        }
    } else if spec_is_ascii_digit(c) {
        number_at(s, b)
    } else if is_word_start(c) {
        word_at(s, b)
    } else {
        Lexeme { kind: TokenKind::Invalid, start: b, end: b + 1 }
    }
}

/// The next token when scanning resumes at `p`: trivia skipped, then one
/// token recognized.
pub open spec fn lex_at(s: Seq<char>, p: int) -> Lexeme {
    token_at(s, skip_trivia(s, p))
}

/// The token stream from `p` on: every token up to, and not including, the
/// end-of-input token.
pub open spec fn lex_from(s: Seq<char>, p: int) -> Seq<Lexeme>
    decreases s.len() - p,
    via lex_from_decreases
{
    let l = lex_at(s, p);
    if l.kind == TokenKind::EOF {
        Seq::empty()
    } else {
        seq![l] + lex_from(s, l.end)
    }
}

#[via_fn]
proof fn lex_from_decreases(s: Seq<char>, p: int) {
    lemma_lex_at_progress(s, p);
}

/// The token stream of a whole input.
pub open spec fn lex(s: Seq<char>) -> Seq<Lexeme> {
    lex_from(s, 0)
}

/// A run ends where the characters after `p` stop satisfying `pred`.
pub proof fn lemma_run_end_is(s: Seq<char>, p: int, q: int, pred: spec_fn(char) -> bool)
    requires
        p <= q,
        forall|i: int| p < i <= q ==> #[trigger] continues(s, i, pred),
        !continues(s, q + 1, pred),
    ensures
        run_end(s, p, pred) == q,
    decreases q - p,
{
    if p < q {
        assert(continues(s, p + 1, pred));
        lemma_run_end_is(s, p + 1, q, pred);
    }
}

/// A run that starts inside the text ends inside it.
pub proof fn lemma_run_end_bounds(s: Seq<char>, p: int, pred: spec_fn(char) -> bool)
    requires
        p < s.len(),
    ensures
        p <= run_end(s, p, pred) < s.len(),
    decreases s.len() - p,
{
    if continues(s, p + 1, pred) {
        lemma_run_end_bounds(s, p + 1, pred);
    }
}

/// Skipping trivia never moves backwards, nor past the end of the text.
pub proof fn lemma_trivia_end_bounds(s: Seq<char>, i: int, in_comment: bool)
    ensures
        i <= trivia_end(s, i, in_comment),
        i <= s.len() ==> trivia_end(s, i, in_comment) <= s.len(),
    decreases s.len() - i, if in_comment { 1int } else { 0int },
{
    let c = char_at(s, i);
    if in_comment {
        if c != EOF_CHAR && c != '\n' {
            lemma_trivia_end_bounds(s, i + 1, true);
        } else {
            lemma_trivia_end_bounds(s, i, false);
        }
    } else if c != EOF_CHAR && unicode_whitespace(c) {
        lemma_trivia_end_bounds(s, i + 1, false);
    } else if c == '/' && char_at(s, i + 1) == '/' {
        lemma_trivia_end_bounds(s, i + 1, true);
    }
}

/// Every token but the end-of-input one starts where trivia ends, and covers
/// at least one character of the text.
pub proof fn lemma_token_at_progress(s: Seq<char>, b: int)
    ensures
        token_at(s, b).start == b,
        token_at(s, b).kind != TokenKind::EOF ==> 0 <= b < token_at(s, b).end <= s.len(),
        token_at(s, b).kind == TokenKind::EOF <==> char_at(s, b) == EOF_CHAR,
{
    let c = char_at(s, b);
    if c != EOF_CHAR {
        assert(0 <= b < s.len());
        if single_char_kind(c) is None && c != '.' {
            if spec_is_ascii_digit(c) {
                let q = run_end(s, b, digit_pred());
                lemma_run_end_bounds(s, b, digit_pred());
                if char_at(s, q + 1) == '.' && spec_is_digit(char_at(s, q + 2)) {
                    let r = q + 2;
                    assert(r < s.len());
                    if !spec_is_ascii_digit(char_at(s, r)) {
                        lemma_run_end_bounds(s, r, alphanumeric_pred());
                    } else {
                        let t = run_end(s, r, digit_pred());
                        lemma_run_end_bounds(s, r, digit_pred());
                        if is_exponent_marker(char_at(s, t + 1)) {
                            let u = if is_sign(char_at(s, t + 2)) { t + 2 } else { t + 1 };
                            assert(u < s.len());
                            lemma_run_end_bounds(s, u, digit_pred());
                        }
                    }
                } else {
                    let v = digits_value(s.subrange(b, q + 1));
                    if v <= u64::MAX {
                        assert(number_at(s, b).kind == TokenKind::Integer(v as u64));
                    }
                }
            } else if is_word_start(c) {
                lemma_run_end_bounds(s, b, continuing_alpha_pred());
            }
        }
    }
}

/// Each call of the scanner moves forward, and stays within the text.
pub proof fn lemma_lex_at_progress(s: Seq<char>, p: int)
    ensures
        p <= lex_at(s, p).start,
        lex_at(s, p).kind != TokenKind::EOF ==> lex_at(s, p).start < lex_at(s, p).end <= s.len(),
        p <= s.len() ==> lex_at(s, p).end <= s.len(),
{
    lemma_trivia_end_bounds(s, p, false);
    lemma_token_at_progress(s, skip_trivia(s, p));
}

pub open spec fn whitespace_pred() -> spec_fn(char) -> bool {
    |c: char| unicode_whitespace(c)
}

pub open spec fn not_newline_pred() -> spec_fn(char) -> bool {
    |c: char| c != '\n'
}

/// Skipping a whitespace run `p..=q` and then the trivia after it is
/// skipping the trivia at `p`.
pub proof fn lemma_whitespace_run(s: Seq<char>, p: int, q: int)
    requires
        p <= q,
        forall|i: int| p <= i <= q ==> #[trigger] continues(s, i, whitespace_pred()),
    ensures
        trivia_end(s, p, false) == trivia_end(s, q + 1, false),
    decreases q - p,
{
    assert(continues(s, p, whitespace_pred()));
    if p < q {
        lemma_whitespace_run(s, p + 1, q);
    }
}

/// Inside a comment, skipping to `q + 1`, where the line or the text ends,
/// loses nothing.
proof fn lemma_comment_rest(s: Seq<char>, j: int, q: int)
    requires
        j <= q + 1,
        forall|i: int| j <= i <= q ==> #[trigger] continues(s, i, not_newline_pred()),
        !continues(s, q + 1, not_newline_pred()),
    ensures
        trivia_end(s, j, true) == trivia_end(s, q + 1, false),
    decreases q + 1 - j,
{
    if j <= q {
        assert(continues(s, j, not_newline_pred()));
        lemma_comment_rest(s, j + 1, q);
    }
}

/// Skipping a line comment that starts at `p` and whose text runs to `q`,
/// then the trivia after it, is skipping the trivia at `p`.
pub proof fn lemma_comment_run(s: Seq<char>, p: int, q: int)
    requires
        char_at(s, p) == '/',
        char_at(s, p + 1) == '/',
        !unicode_whitespace(char_at(s, p)),
        p <= q,
        forall|i: int| p < i <= q ==> #[trigger] continues(s, i, not_newline_pred()),
        !continues(s, q + 1, not_newline_pred()),
    ensures
        trivia_end(s, p, false) == trivia_end(s, q + 1, false),
{
    lemma_comment_rest(s, p + 1, q);
}

} // verus!
