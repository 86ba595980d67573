//! Laws of the token stream as a whole.
use vstd::prelude::*;
use crate::chars::{char_at, EOF_CHAR};
use crate::grammar::{
    lemma_lex_at_progress, lemma_token_at_progress, lemma_trivia_end_bounds, lex, lex_at, lex_from,
    skip_trivia, Lexeme,
};
use crate::lexer::{token_matches, tokens_match};
use crate::token::{Token, TokenKind};

verus! {

/// Where scanning resumes after the stream from `p` has been read.
pub open spec fn stream_end(s: Seq<char>, p: int) -> int {
    let ls = lex_from(s, p);
    if ls.len() == 0 {
        p
    } else {
        ls.last().end
    }
}

/// The text put back together: from `from` on, each gap before a token,
/// then the token's span, and the tail after the last token.
pub open spec fn rebuild(s: Seq<char>, ls: Seq<Lexeme>, from: int) -> Seq<char>
    decreases ls.len(),
{
    if ls.len() == 0 {
        s.subrange(from, s.len() as int)
    } else {
        s.subrange(from, ls[0].start) + s.subrange(ls[0].start, ls[0].end) + rebuild(
            s,
            ls.drop_first(),
            ls[0].end,
        )
    }
}

pub open spec fn has_no_nul(s: Seq<char>) -> bool {
    forall|i: int| 0 <= i < s.len() ==> s[i] != EOF_CHAR
}

/// The stream from `p` yields no end-of-input token, and the token that the
/// scanner recognizes where the stream stops is the end-of-input token.
pub proof fn lemma_stream_stops_at_end_of_input(s: Seq<char>, p: int)
    ensures
        forall|i: int| 0 <= i < lex_from(s, p).len() ==> (#[trigger] lex_from(s, p)[i]).kind != TokenKind::EOF,
        lex_at(s, stream_end(s, p)).kind == TokenKind::EOF,
    decreases s.len() - p,
{
    let l = lex_at(s, p);
    lemma_lex_at_progress(s, p);
    if l.kind != TokenKind::EOF {
        lemma_stream_stops_at_end_of_input(s, l.end);
        let rest = lex_from(s, l.end);
        assert(lex_from(s, p) == seq![l] + rest);
        if rest.len() > 0 {
            assert(lex_from(s, p).last() == rest.last());
        }
    }
}

/// Where scanning resumes after `k` calls of the scanner from `p`: the
/// position that `Lexer::next_token` leaves after `k` calls.
pub open spec fn resume_after(s: Seq<char>, p: int, k: nat) -> int
    decreases k,
{
    if k == 0 {
        p
    } else {
        resume_after(s, lex_at(s, p).end, (k - 1) as nat)
    }
}

/// Scanning from `p` reaches the end of input: after one call per token of
/// the stream, at most one per remaining character, the next call
/// recognizes the end of input, and no call before it does.
pub proof fn lemma_end_of_input_is_reached(s: Seq<char>, p: int)
    requires
        0 <= p <= s.len(),
    ensures
        lex_from(s, p).len() <= s.len() - p,
        forall|k: nat|
            k < lex_from(s, p).len() ==> lex_at(s, #[trigger] resume_after(s, p, k)).kind
                != TokenKind::EOF,
        lex_at(s, resume_after(s, p, lex_from(s, p).len())).kind == TokenKind::EOF,
    decreases s.len() - p,
{
    let l = lex_at(s, p);
    lemma_lex_at_progress(s, p);
    if l.kind != TokenKind::EOF {
        lemma_end_of_input_is_reached(s, l.end);
        let rest = lex_from(s, l.end);
        assert(lex_from(s, p) == seq![l] + rest);
        assert forall|k: nat| k < lex_from(s, p).len() implies lex_at(
            s,
            #[trigger] resume_after(s, p, k),
        ).kind != TokenKind::EOF by {
            if k > 0 {
                assert(resume_after(s, p, k) == resume_after(s, l.end, (k - 1) as nat));
            }
        }
        assert(resume_after(s, p, lex_from(s, p).len()) == resume_after(s, l.end, rest.len()));
    }
}

/// Scanning any input ends. A lexer made by `Lexer::new` is at position 0;
/// there is a count `n`, at most the number of characters, such that calls
/// `1..=n` of `next_token` give tokens other than the end of input, and call
/// `n + 1` gives the end of input. The stream holds those `n` tokens.
pub proof fn lemma_totality(s: Seq<char>)
    ensures
        lex(s).len() <= s.len(),
        forall|k: nat|
            k < lex(s).len() ==> lex_at(s, #[trigger] resume_after(s, 0, k)).kind != TokenKind::EOF,
        lex_at(s, resume_after(s, 0, lex(s).len())).kind == TokenKind::EOF,
        forall|i: int| 0 <= i < lex(s).len() ==> (#[trigger] lex(s)[i]).kind != TokenKind::EOF,
        lex_at(s, stream_end(s, 0)).kind == TokenKind::EOF,
{
    lemma_end_of_input_is_reached(s, 0);
    lemma_stream_stops_at_end_of_input(s, 0);
}

/// The shape of the stream from `p`: spans in order, each non-empty, the
/// gaps before them exactly trivia, and gaps and spans together the text.
pub proof fn lemma_stream_layout(s: Seq<char>, p: int)
    requires
        0 <= p <= s.len(),
    ensures
        forall|i: int|
            0 <= i < lex_from(s, p).len() ==> p <= (#[trigger] lex_from(s, p)[i]).start
                < lex_from(s, p)[i].end <= s.len(),
        lex_from(s, p).len() > 0 ==> lex_from(s, p)[0].start == skip_trivia(s, p),
        forall|i: int|
            0 <= i < lex_from(s, p).len() - 1 ==> lex_from(s, p)[i + 1].start == skip_trivia(
                s,
                #[trigger] lex_from(s, p)[i].end,
            ),
        p <= stream_end(s, p) <= s.len(),
        has_no_nul(s) ==> skip_trivia(s, stream_end(s, p)) == s.len(),
        rebuild(s, lex_from(s, p), p) == s.subrange(p, s.len() as int),
    decreases s.len() - p,
{
    let l = lex_at(s, p);
    let ls = lex_from(s, p);
    lemma_lex_at_progress(s, p);
    lemma_trivia_end_bounds(s, p, false);
    lemma_token_at_progress(s, skip_trivia(s, p));
    if l.kind == TokenKind::EOF {
        if has_no_nul(s) {
            let b = skip_trivia(s, p);
            assert(char_at(s, b) == EOF_CHAR);
            assert(b == s.len());
        }
    } else {
        lemma_stream_layout(s, l.end);
        let rest = lex_from(s, l.end);
        assert(ls == seq![l] + rest);
        assert(ls.drop_first() == rest);
        if rest.len() > 0 {
            assert(ls.last() == rest.last());
            lemma_lex_at_progress(s, l.end);
        }
        assert forall|i: int| 0 <= i < ls.len() - 1 implies ls[i + 1].start == skip_trivia(
            s,
            #[trigger] ls[i].end,
        ) by {
            if i == 0 {
                assert(rest[0] == lex_at(s, l.end));
            } else {
                assert(ls[i] == rest[i - 1]);
            }
        }
        assert(rebuild(s, ls, p) =~= s.subrange(p, s.len() as int));
    }
}

/// Span coverage: for a text without NUL characters, the gaps between the
/// tokens are exactly whitespace and comments, and the gaps and the tokens'
/// spans, in order, are the text again, character for character.
pub proof fn lemma_span_coverage(s: Seq<char>)
    requires
        has_no_nul(s),
    ensures
        rebuild(s, lex(s), 0) == s,
        forall|i: int| 0 <= i < lex(s).len() ==> (#[trigger] lex(s)[i]).start < lex(s)[i].end,
        lex(s).len() > 0 ==> lex(s)[0].start == skip_trivia(s, 0),
        forall|i: int|
            0 <= i < lex(s).len() - 1 ==> lex(s)[i + 1].start == skip_trivia(
                s,
                #[trigger] lex(s)[i].end,
            ),
        skip_trivia(s, stream_end(s, 0)) == s.len(),
{
    lemma_stream_layout(s, 0);
    assert(s.subrange(0, s.len() as int) =~= s);
}

/// Lexing the same text twice gives the same tokens: the same kinds and
/// the same texts, in the same order.
pub proof fn lemma_lexing_is_deterministic(s: Seq<char>, a: Seq<Token>, b: Seq<Token>)
    requires
        tokens_match(a, s, lex(s)),
        tokens_match(b, s, lex(s)),
    ensures
        a.len() == b.len(),
        forall|i: int|
            0 <= i < a.len() ==> (#[trigger] a[i]).token_kind == b[i].token_kind && a[i].chars@
                == b[i].chars@,
{
    assert forall|i: int| 0 <= i < a.len() implies (#[trigger] a[i]).token_kind == b[i].token_kind
        && a[i].chars@ == b[i].chars@ by {
        assert(token_matches(a[i], s, lex(s)[i]));
        assert(token_matches(b[i], s, lex(s)[i]));
    }
}

} // verus!
