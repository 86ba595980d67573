//! The scanner: a three-character window over the input, and the token
//! recognizer built on it.
use vstd::prelude::*;
use crate::chars::{
    char_at, is_alphanumeric, is_ascii_digit, is_continuing_alpha, is_digit, is_not_newline,
    is_whitespace, spec_is_ascii_digit, spec_is_digit, EOF_CHAR,
};
use crate::grammar::{
    alphanumeric_pred, continues, continuing_alpha_pred, digit_pred, float_at, lemma_comment_run,
    lemma_lex_at_progress, lemma_run_end_is, lemma_whitespace_run, lex, lex_at, lex_from,
    not_newline_pred, number_at, run_end, skip_trivia, whitespace_pred, Lexeme,
};
use crate::token::{integer_value, lookup_keyword, Token, TokenKind};

verus! {

broadcast use vstd::string::group_string_axioms;

/// The characters of `input`, in order.
fn chars_of(input: &str) -> (r: Vec<char>)
    ensures
        r@ == input@,
{
    let mut v: Vec<char> = Vec::new();
    for c in it: input.chars()
        invariant
            v@ == it.seq().subrange(0, it.index() as int),
    {
        v.push(c);
    }
    v
}

/// `f` accepted the character at `i`, which lies in the text.
pub open spec fn accepted<F: Fn(char) -> bool>(f: &F, s: Seq<char>, i: int) -> bool {
    &&& 0 <= i < s.len()
    &&& s[i] != EOF_CHAR
    &&& f.ensures((s[i],), true)
}

/// `f` accepted every character after `p` up to `q`.
pub open spec fn accepted_run<F: Fn(char) -> bool>(f: &F, s: Seq<char>, p: int, q: int) -> bool {
    forall|i: int| p < i <= q ==> #[trigger] accepted(f, s, i)
}

/// The character at index `i` of `chars`, or the sentinel past the end.
fn window_char(chars: &Vec<char>, i: usize) -> (c: char)
    ensures
        c == char_at(chars@, i as int),
{
    if i < chars.len() {
        chars[i]
    } else {
        EOF_CHAR
    }
}

/// A lexer over one input text.
///
/// `current` is the character at `position`; `first_ahead` and
/// `second_ahead` are the two after it, with the sentinel past the end.
pub struct Lexer<'a> {
    input: &'a str,
    chars: Vec<char>,
    current: char,
    first_ahead: char,
    second_ahead: char,
    position: usize,
    ascii: bool,
}

impl<'a> Lexer<'a> {
    /// The text being scanned.
    pub closed spec fn source(&self) -> Seq<char> {
        self.input@
    }

    /// The index of the current character.
    pub closed spec fn pos(&self) -> int {
        self.position as int
    }

    /// The window shows the characters at the position and the two after
    /// it, the sentinel where these lie past the end of the text.
    pub closed spec fn wf(&self) -> bool {
        let s = self.input@;
        let p = self.position as int;
        &&& s.len() <= usize::MAX
        &&& self.current == char_at(s, p)
        &&& self.first_ahead == char_at(s, p + 1)
        &&& self.second_ahead == char_at(s, p + 2)
        &&& self.chars@ == s
        &&& self.ascii == self.input.is_ascii()
    }

    /// Start scanning `input`, with the first character current.
    pub fn new(input: &'a str) -> (r: Self)
        ensures
            r.wf(),
            r.source() == input@,
            r.pos() == 0,
    {
        let chars = chars_of(input);
        let current = window_char(&chars, 0);
        let first_ahead = window_char(&chars, 1);
        let second_ahead = window_char(&chars, 2);
        let ascii = input.is_ascii();
        assert(chars@.len() == chars.len());
        Lexer { input, chars, current, first_ahead, second_ahead, position: 0, ascii }
    }

    /// Shift the window forward by one character, pulling in the next
    /// character of the text, or the sentinel past its end.
    pub fn advance(&mut self)
        requires
            old(self).wf(),
            old(self).pos() < usize::MAX,
        ensures
            final(self).wf(),
            final(self).source() == old(self).source(),
            final(self).pos() == old(self).pos() + 1,
    {
        self.current = self.first_ahead;
        self.first_ahead = self.second_ahead;
        assert(self.chars@.len() == self.chars.len());
        self.position = self.position + 1;
        self.second_ahead = if self.position < self.chars.len() && self.chars.len()
            - self.position > 2 {
            self.chars[self.position + 2]
        } else {
            EOF_CHAR
        };
    }

    /// The index of the current character within the input.
    pub fn get_pos(&self) -> (r: usize)
        requires
            self.wf(),
        ensures
            r == self.pos(),
    {
        self.position
    }

    /// Advance while the character after the current one satisfies `f`,
    /// stopping at the end of the input.
    pub fn eat_while(&mut self, f: impl Fn(char) -> bool)
        requires
            old(self).wf(),
            forall|c: char| f.requires((c,)),
        ensures
            final(self).wf(),
            final(self).source() == old(self).source(),
            old(self).pos() <= final(self).pos(),
            accepted_run(&f, old(self).source(), old(self).pos(), final(self).pos()),
            old(self).pos() < old(self).source().len() ==> final(self).pos() < old(self).source().len(),
            char_at(old(self).source(), final(self).pos() + 1) == EOF_CHAR || f.ensures(
                (char_at(old(self).source(), final(self).pos() + 1),),
                false,
            ),
    {
        let ghost s = self.input@;
        let ghost p = self.position as int;
        loop
            invariant
                self.wf(),
                self.input@ == s,
                forall|c: char| f.requires((c,)),
                p <= self.position,
                accepted_run(&f, s, p, self.position as int),
                p < s.len() ==> self.position < s.len(),
            ensures
                self.wf(),
                self.input@ == s,
                p <= self.position,
                accepted_run(&f, s, p, self.position as int),
                p < s.len() ==> self.position < s.len(),
                char_at(s, self.position + 1) == EOF_CHAR || f.ensures(
                    (char_at(s, self.position + 1),),
                    false,
                ),
            decreases s.len() - self.position,
        {
            let c = self.first_ahead;
            if c == EOF_CHAR {
                break;
            }
            if !f(c) {
                break;
            }
            let ghost q = self.position + 1;
            self.advance();
            assert forall|i: int| p < i <= self.position implies accepted(&f, s, i) by {
                if i == q {
                    assert(s[i] == c);
                }
            }
            assert(accepted(&f, s, q));
        }
    }

    /// Advance past whitespace and line comments, until the current
    /// character starts a token or the input has ended.
    pub fn eat_whitespace_and_comments(&mut self)
        requires
            old(self).wf(),
        ensures
            final(self).wf(),
            final(self).source() == old(self).source(),
            final(self).pos() == skip_trivia(old(self).source(), old(self).pos()),
    {
        let ghost s = self.input@;
        let ghost target = skip_trivia(s, self.position as int);
        loop
            invariant
                self.wf(),
                self.input@ == s,
                skip_trivia(s, self.position as int) == target,
            ensures
                self.wf(),
                self.input@ == s,
                self.position == target,
            decreases s.len() - self.position,
        {
            let ghost p = self.position as int;
            if self.current != EOF_CHAR && is_whitespace(self.current) {
                self.eat_while(is_whitespace);
                proof {
                    let q = self.position as int;
                    assert forall|i: int| p <= i <= q implies #[trigger] continues(
                        s,
                        i,
                        whitespace_pred(),
                    ) by {
                        if i > p {
                            assert(accepted(&is_whitespace, s, i));
                        }
                    }
                    lemma_whitespace_run(s, p, q);
                }
                self.advance();
            } else if self.current == '/' && self.first_ahead == '/' {
                assert(p < s.len());
                self.eat_while(is_not_newline);
                proof {
                    let q = self.position as int;
                    assert forall|i: int| p < i <= q implies #[trigger] continues(
                        s,
                        i,
                        not_newline_pred(),
                    ) by {
                        assert(accepted(&is_not_newline, s, i));
                    }
                    lemma_comment_run(s, p, q);
                    if q > p {
                        assert(accepted(&is_not_newline, s, q));
                    }
                }
                self.advance();
            } else {
                break;
            }
        }
    }

    /// Ends the token that started at `start` with the current character,
    /// and moves past it.
    fn finish(&mut self, kind: TokenKind, start: usize) -> (r: Token<'a>)
        requires
            old(self).wf(),
            start <= old(self).pos() < old(self).source().len(),
        ensures
            final(self).wf(),
            final(self).source() == old(self).source(),
            final(self).pos() == old(self).pos() + 1,
            r.token_kind == kind,
            r.chars@ == old(self).source().subrange(start as int, old(self).pos() + 1),
    {
        assert(self.chars@.len() == self.chars.len());
        let end = self.position + 1;
        self.advance();
        Token::new(kind, self.text(start, end))
    }

    /// The input's text from `start` up to, not including, `end`.
    fn text(&self, start: usize, end: usize) -> (r: &'a str)
        requires
            self.wf(),
            start <= end <= self.source().len(),
        ensures
            r@ == self.source().subrange(start as int, end as int),
    {
        let input: &'a str = self.input;
        if self.ascii {
            input.substring_ascii(start, end)
        } else {
            input.substring_char(start, end)
        }
    }

    /// Scans the rest of a float literal, from the last digit of its integer
    /// part, where a `.` and a digit-run character follow.
    fn read_float(&mut self) -> (kind: TokenKind)
        requires
            old(self).wf(),
            char_at(old(self).source(), old(self).pos() + 1) == '.',
            spec_is_digit(char_at(old(self).source(), old(self).pos() + 2)),
        ensures
            final(self).wf(),
            final(self).source() == old(self).source(),
            (kind, final(self).pos()) == float_at(old(self).source(), old(self).pos()),
            old(self).pos() < final(self).pos() < old(self).source().len(),
    {
        let ghost s = self.input@;
        self.advance();
        self.advance();
        let ghost r = self.position as int;
        if !is_ascii_digit(self.current) {
            if is_alphanumeric(self.current) {
                self.eat_while(is_alphanumeric);
                proof {
                    lemma_eaten_run(&is_alphanumeric, s, r, self.position as int, alphanumeric_pred());
                }
            }
            return TokenKind::Invalid;
        }
        self.eat_while(is_digit);
        proof {
            lemma_eaten_run(&is_digit, s, r, self.position as int, digit_pred());
        }
        if self.first_ahead == 'e' || self.first_ahead == 'E' {
            self.advance();
            if self.first_ahead == '-' || self.first_ahead == '+' {
                self.advance();
            }
            let valid = is_ascii_digit(self.first_ahead);
            let ghost u = self.position as int;
            self.eat_while(is_digit);
            proof {
                lemma_eaten_run(&is_digit, s, u, self.position as int, digit_pred());
            }
            if valid {
                TokenKind::Float
            } else {
                TokenKind::Invalid
            }
        } else {
            TokenKind::Float
        }
    }

    /// Scans a numeric literal that starts with the current digit.
    fn read_number(&mut self) -> (r: Token<'a>)
        requires
            old(self).wf(),
            spec_is_ascii_digit(char_at(old(self).source(), old(self).pos())),
        ensures
            final(self).wf(),
            final(self).source() == old(self).source(),
            token_matches(r, old(self).source(), number_at(old(self).source(), old(self).pos())),
            final(self).pos() == number_at(old(self).source(), old(self).pos()).end,
    {
        let ghost s = self.input@;
        let start = self.position;
        self.eat_while(is_digit);
        proof {
            lemma_eaten_run(&is_digit, s, start as int, self.position as int, digit_pred());
        }
        assert(self.chars@.len() == self.chars.len());
        let kind = if self.first_ahead == '.' && is_digit(self.second_ahead) {
            self.read_float()
        } else {
            proof {
                let w = s.subrange(start as int, self.position + 1);
                assert forall|i: int| 0 <= i < w.len() implies spec_is_digit(#[trigger] w[i]) by {
                    if i > 0 {
                        assert(accepted(&is_digit, s, start + i));
                    }
                }
            }
            match integer_value(&self.chars, start, self.position + 1) {
                Some(v) => TokenKind::Integer(v),
                None => TokenKind::Invalid,
            }
        };
        self.finish(kind, start)
    }

    /// Skips trivia, then recognizes one token. At the end of the input this
    /// is the end-of-input token, with an empty text, and the lexer stays put.
    pub fn next_token(&mut self) -> (r: Token<'a>)
        requires
            old(self).wf(),
        ensures
            final(self).wf(),
            final(self).source() == old(self).source(),
            token_matches(r, old(self).source(), lex_at(old(self).source(), old(self).pos())),
            final(self).pos() == lex_at(old(self).source(), old(self).pos()).end,
    {
        let ghost s = self.input@;
        self.eat_whitespace_and_comments();
        let start = self.position;
        let kind = match self.current {
            '+' => TokenKind::Plus,
            '-' => TokenKind::Minus,
            '/' => TokenKind::Divide,
            '*' => TokenKind::Multiply,
            '=' => TokenKind::Assign,
            ';' => TokenKind::Semi,
            '(' => TokenKind::LParen,
            ')' => TokenKind::RParen,
            '{' => TokenKind::LCurly,
            '}' => TokenKind::RCurly,
            '.' => {
                if self.first_ahead == '.' {
                    self.advance();
                    if self.first_ahead == '=' {
                        self.advance();
                        TokenKind::RangeEqual
                    } else {
                        TokenKind::RangeUntil
                    }
                } else {
                    TokenKind::Dereference
                }
            },
            '0'..='9' => {
                return self.read_number();
            },
            'a'..='z' | 'A'..='Z' | '_' => {
                self.eat_while(is_continuing_alpha);
                assert(self.chars@.len() == self.chars.len());
                proof {
                    lemma_eaten_run(
                        &is_continuing_alpha,
                        s,
                        start as int,
                        self.position as int,
                        continuing_alpha_pred(),
                    );
                }
                match lookup_keyword(&self.chars, start, self.position + 1) {
                    Some(k) => TokenKind::Keyword(k),
                    None => TokenKind::Ident,
                }
            },
            c => {
                if c == EOF_CHAR {
                    let empty = self.text(0, 0);
                    assert(empty@ =~= Seq::<char>::empty());
                    return Token::new(TokenKind::EOF, empty);
                }
                TokenKind::Invalid
            },
        };
        self.finish(kind, start)
    }
}

/// Converts what `eat_while` promises into the end of a run.
proof fn lemma_eaten_run<F: Fn(char) -> bool>(
    f: &F,
    s: Seq<char>,
    p: int,
    q: int,
    pred: spec_fn(char) -> bool,
)
    requires
        p <= q,
        accepted_run(f, s, p, q),
        char_at(s, q + 1) == EOF_CHAR || f.ensures((char_at(s, q + 1),), false),
        forall|c: char, r: bool| f.ensures((c,), r) ==> r == pred(c),
    ensures
        q == run_end(s, p, pred),
{
    assert forall|i: int| p < i <= q implies #[trigger] continues(s, i, pred) by {
        assert(accepted(f, s, i));
    }
    lemma_run_end_is(s, p, q, pred);
}

/// `t` is the token that `l` describes in the text `s`.
/// The end-of-input token has an empty text; every other token has the text
/// of its span.
pub open spec fn token_matches(t: Token, s: Seq<char>, l: Lexeme) -> bool {
    &&& t.token_kind == l.kind
    &&& l.kind == TokenKind::EOF ==> t.chars@ == Seq::<char>::empty()
    &&& l.kind != TokenKind::EOF ==> t.chars@ == s.subrange(l.start, l.end)
}

/// `ts` are the tokens that `ls` describe in the text `s`, in order.
pub open spec fn tokens_match(ts: Seq<Token>, s: Seq<char>, ls: Seq<Lexeme>) -> bool {
    &&& ts.len() == ls.len()
    &&& forall|i: int| 0 <= i < ts.len() ==> token_matches(#[trigger] ts[i], s, ls[i])
}

/// Splits `input` into its tokens, in order, leaving out trivia and the
/// final end-of-input token.
pub fn tokenise<'a>(input: &'a str) -> (r: Vec<Token<'a>>)
    ensures
        tokens_match(r@, input@, lex(input@)),
{
    let ghost s = input@;
    let mut lexer = Lexer::new(input);
    let mut tokens: Vec<Token<'a>> = Vec::new();
    let ghost mut done: Seq<Lexeme> = Seq::empty();
    loop
        invariant
            lexer.wf(),
            lexer.source() == s,
            0 <= lexer.pos() <= s.len(),
            lex(s) == done + lex_from(s, lexer.pos()),
            tokens_match(tokens@, s, done),
        ensures
            tokens_match(tokens@, s, lex(s)),
        decreases s.len() - lexer.pos(),
    {
        let ghost p = lexer.pos();
        let token = lexer.next_token();
        proof {
            lemma_lex_at_progress(s, p);
        }
        if token.token_kind == TokenKind::EOF {
            assert(done + lex_from(s, p) =~= done);
            break;
        }
        proof {
            let l = lex_at(s, p);
            assert(done + lex_from(s, p) =~= done.push(l) + lex_from(s, l.end));
            done = done.push(l);
        }
        tokens.push(token);
    }
    tokens
}

} // verus!
