//! Tokens, keywords, and the values that numeric literals denote.
use vstd::prelude::*;
use crate::chars::spec_is_digit;

verus! {

/// A reserved word of the language.
#[derive(Copy, Clone, Debug, PartialEq, Eq, Structural)]
pub enum KeyWord {
    Let,
    If,
    Enum,
    Return,
    Function,
    Struct,
}

/// What a token is. A float literal is classified here; the value it
/// denotes is read from the token's text.
#[derive(Copy, Clone, Debug, PartialEq, Eq, Structural)]
pub enum TokenKind {
    Integer(u64),
    Float,
    Plus,
    Minus,
    Divide,
    Multiply,
    Assign,
    Semi,
    EOF,
    Ident,
    Invalid,
    RangeUntil,
    RangeEqual,
    Dereference,
    LParen,
    RParen,
    LCurly,
    RCurly,
    Keyword(KeyWord),
}

/// A token: its kind, and the exact text of the input it covers.
#[derive(Debug)]
pub struct Token<'a> {
    pub chars: &'a str,
    pub token_kind: TokenKind,
}

impl<'a> Token<'a> {
    pub fn new(token_kind: TokenKind, chars: &'a str) -> (r: Token<'a>)
        ensures
            r.token_kind == token_kind,
            r.chars == chars,
    {
        Token { token_kind, chars }
    }
}

/// The keyword table: the reserved word that `w` spells, if any.
pub open spec fn keyword_of(w: Seq<char>) -> Option<KeyWord> {
    if w == seq!['f', 'n'] {
        Some(KeyWord::Function)
    } else if w == seq!['l', 'e', 't'] {
        Some(KeyWord::Let)
    } else if w == seq!['i', 'f'] {
        Some(KeyWord::If)
    } else if w == seq!['e', 'n', 'u', 'm'] {
        Some(KeyWord::Enum)
    } else if w == seq!['r', 'e', 't', 'u', 'r', 'n'] {
        Some(KeyWord::Return)
    } else if w == seq!['s', 't', 'r', 'u', 'c', 't'] {
        Some(KeyWord::Struct)
    } else {
        None
    }
}

/// Whether `chars[start..end]` spells `word`.
fn span_is(chars: &Vec<char>, start: usize, end: usize, word: &[char]) -> (r: bool)
    requires
        start <= end <= chars@.len(),
    ensures
        r == (chars@.subrange(start as int, end as int) == word@),
{
    if end - start != word.len() {
        return false;
    }
    let mut i: usize = 0;
    while i < word.len()
        invariant
            start <= end <= chars@.len(),
            end - start == word@.len(),
            0 <= i <= word@.len(),
            forall|j: int| 0 <= j < i ==> chars@[start + j] == word@[j],
        decreases word@.len() - i,
    {
        if chars[start + i] != word[i] {
            assert(chars@.subrange(start as int, end as int)[i as int] != word@[i as int]);
            return false;
        }
        i = i + 1;
    }
    assert(chars@.subrange(start as int, end as int) =~= word@);
    true
}

/// Looks `chars[start..end]` up in the keyword table.
pub fn lookup_keyword(chars: &Vec<char>, start: usize, end: usize) -> (r: Option<KeyWord>)
    requires
        start <= end <= chars@.len(),
    ensures
        r == keyword_of(chars@.subrange(start as int, end as int)),
{
    let ghost w = chars@.subrange(start as int, end as int);
    let fn_word = ['f', 'n'];
    let let_word = ['l', 'e', 't'];
    let if_word = ['i', 'f'];
    let enum_word = ['e', 'n', 'u', 'm'];
    let return_word = ['r', 'e', 't', 'u', 'r', 'n'];
    let struct_word = ['s', 't', 'r', 'u', 'c', 't'];
    assert(fn_word@ =~= seq!['f', 'n']);
    assert(let_word@ =~= seq!['l', 'e', 't']);
    assert(if_word@ =~= seq!['i', 'f']);
    assert(enum_word@ =~= seq!['e', 'n', 'u', 'm']);
    assert(return_word@ =~= seq!['r', 'e', 't', 'u', 'r', 'n']);
    assert(struct_word@ =~= seq!['s', 't', 'r', 'u', 'c', 't']);
    if span_is(chars, start, end, &fn_word) {
        Some(KeyWord::Function)
    } else if span_is(chars, start, end, &let_word) {
        Some(KeyWord::Let)
    } else if span_is(chars, start, end, &if_word) {
        Some(KeyWord::If)
    } else if span_is(chars, start, end, &enum_word) {
        Some(KeyWord::Enum)
    } else if span_is(chars, start, end, &return_word) {
        Some(KeyWord::Return)
    } else if span_is(chars, start, end, &struct_word) {
        Some(KeyWord::Struct)
    } else {
        None
    }
}

/// The number a digit run denotes; `_` only groups digits.
pub open spec fn digits_value(w: Seq<char>) -> nat
    decreases w.len(),
{
    if w.len() == 0 {
        0
    } else if w.last() == '_' {
        digits_value(w.drop_last())
    } else {
        (digits_value(w.drop_last()) * 10 + (w.last() as int - '0' as int)) as nat
    }
}

pub open spec fn all_digits(w: Seq<char>) -> bool {
    forall|i: int| 0 <= i < w.len() ==> spec_is_digit(#[trigger] w[i])
}

/// A longer digit run never denotes less.
pub proof fn lemma_digits_value_grows(w: Seq<char>, k: int)
    requires
        all_digits(w),
        0 <= k <= w.len(),
    ensures
        digits_value(w.subrange(0, k)) <= digits_value(w),
    decreases w.len() - k,
{
    if k < w.len() {
        let u = w.subrange(0, k + 1);
        assert(u.drop_last() =~= w.subrange(0, k));
        assert(spec_is_digit(w[k]));
        lemma_digits_value_grows(w, k + 1);
        assert(w.subrange(0, w.len() as int) =~= w);
    } else {
        assert(w.subrange(0, k) =~= w);
    }
}

/// The value of the digit run `chars[start..end]`, or `None` where it does
/// not fit in 64 bits.
pub fn integer_value(chars: &Vec<char>, start: usize, end: usize) -> (r: Option<u64>)
    requires
        start <= end <= chars@.len(),
        all_digits(chars@.subrange(start as int, end as int)),
    ensures
        r == (if digits_value(chars@.subrange(start as int, end as int)) <= u64::MAX {
            Some(digits_value(chars@.subrange(start as int, end as int)) as u64)
        } else {
            None
        }),
{
    let ghost w = chars@.subrange(start as int, end as int);
    let mut value: u64 = 0;
    let mut i: usize = start;
    while i < end
        invariant
            start <= i <= end <= chars@.len(),
            w == chars@.subrange(start as int, end as int),
            all_digits(w),
            value == digits_value(w.subrange(0, i - start)),
        decreases end - i,
    {
        let c = chars[i];
        assert(w.subrange(0, i - start + 1).drop_last() =~= w.subrange(0, i - start));
        assert(c == w[i - start]);
        if c != '_' {
            let d = (c as u32 - '0' as u32) as u64;
            assert(d <= 9) by {
                assert(spec_is_digit(w[i - start]));
            }
            let grown = match value.checked_mul(10) {
                Some(t) => t.checked_add(d),
                None => None,
            };
            match grown {
                Some(v) => {
                    value = v;
                },
                None => {
                    proof {
                        lemma_digits_value_grows(w, i - start + 1);
                    }
                    return None;
                },
            }
        }
        i = i + 1;
    }
    assert(w.subrange(0, w.len() as int) =~= w);
    Some(value)
}

} // verus!
