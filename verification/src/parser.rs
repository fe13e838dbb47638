use crate::error::TokenizeError;
use crate::interner::{Interner, InternerView};
use crate::lexer::{lemma_next_follows_rest, Lexer, LexerView, Outcome};
use crate::token::Token;
use crate::token_stream::TokenStream;
use std::collections::VecDeque;
use vstd::prelude::*;

verus! {

/// Why `consume` did not return the token that was expected.
#[derive(Debug, Clone, Copy, PartialEq, Eq, Structural)]
pub enum ConsumeError {
    /// The stream had ended.
    EndOfStream { expected: Token },
    /// Another token came. It is consumed all the same.
    Unexpected { expected: Token, found: Token },
    /// The lexer failed.
    Lexer(TokenizeError),
}

/// The mathematical value of a parser's view on its tokens.
pub struct ParserView {
    pub lexer: LexerView,
    /// The tokens looked at or put back and not yet taken, next first.
    pub buffered: Seq<Token>,
}

impl ParserView {
    /// What is still to come: the buffered tokens, then the rest of the lexer.
    pub open spec fn upcoming(self, pool: InternerView) -> Outcome {
        self.lexer.rest(pool).after(self.buffered)
    }

    /// Taking the next token: a buffered token first, else the next of the lexer.
    pub open spec fn next_token(self, pool: InternerView) -> (
        ParserView,
        InternerView,
        Result<Option<Token>, TokenizeError>,
    ) {
        if self.buffered.len() > 0 {
            (
                ParserView { buffered: self.buffered.drop_first(), ..self },
                pool,
                Ok(Some(self.buffered[0])),
            )
        } else {
            (
                ParserView { lexer: self.lexer.next(pool).0, ..self },
                self.lexer.next(pool).1,
                self.lexer.next(pool).2,
            )
        }
    }

    /// Looking at the next token: it is taken from the lexer if need be, and
    /// stays buffered.
    pub open spec fn peek(self, pool: InternerView) -> (
        ParserView,
        InternerView,
        Result<Option<Token>, TokenizeError>,
    ) {
        if self.buffered.len() > 0 {
            (self, pool, Ok(Some(self.buffered[0])))
        } else {
            (
                ParserView {
                    lexer: self.lexer.next(pool).0,
                    buffered: match self.lexer.next(pool).2 {
                        Ok(Some(t)) => seq![t],
                        _ => self.buffered,
                    },
                },
                self.lexer.next(pool).1,
                self.lexer.next(pool).2,
            )
        }
    }
}

/// A look-ahead adapter over the tokens of a lexer: tokens can be looked at
/// before they are taken, and put back after.
pub struct Parser {
    lexer: Lexer,
    buffered_tokens: VecDeque<Token>,
}

impl View for Parser {
    type V = ParserView;

    closed spec fn view(&self) -> ParserView {
        ParserView { lexer: self.lexer@, buffered: self.buffered_tokens@ }
    }
}

impl Parser {
    pub open spec fn wf(&self) -> bool {
        self@.lexer.wf()
    }

    pub fn new(lexer: Lexer) -> (r: Self)
        requires
            lexer.wf(),
        ensures
            r.wf(),
            r@ == (ParserView { lexer: lexer@, buffered: Seq::empty() }),
    {
        let r = Parser { lexer, buffered_tokens: VecDeque::new() };
        assert(r@.buffered =~= Seq::<Token>::empty());
        r
    }

    /// Takes the next token: the first of what was still to come. When no
    /// token is left, it reports the failure that ended them, or that
    /// nothing follows.
    pub fn next_token(&mut self, interner: &mut Interner) -> (r: Result<
        Option<Token>,
        TokenizeError,
    >)
        requires
            old(self).wf(),
            old(interner).wf(),
        ensures
            final(self).wf(),
            final(interner).wf(),
            (final(self)@, final(interner)@, r) == old(self)@.next_token(old(interner)@),
            ({
                let before = old(self)@.upcoming(old(interner)@);
                let after = final(self)@.upcoming(final(interner)@);
                &&& after.pool == before.pool
                &&& after.failure == before.failure
                &&& before.tokens.len() > 0 ==> r == Ok::<Option<Token>, TokenizeError>(
                    Some(before.tokens[0]),
                ) && after.tokens == before.tokens.drop_first()
                &&& before.tokens.len() == 0 ==> after.tokens.len() == 0 && r == match before.failure {
                    Some(e) => Err::<Option<Token>, TokenizeError>(e),
                    None => Ok(None),
                }
            }),
    {
        let ghost rest = self@.lexer.rest(interner@);
        let ghost waiting = self@.buffered;
        if self.buffered_tokens.len() > 0 {
            assert((waiting + rest.tokens).drop_first() =~= waiting.drop_first() + rest.tokens);
            Ok(self.buffered_tokens.pop_front())
        } else {
            assert(waiting + rest.tokens =~= rest.tokens);
            let r = self.lexer.next(interner);
            assert(waiting + self@.lexer.rest(interner@).tokens =~= self@.lexer.rest(
                interner@,
            ).tokens);
            r
        }
    }

    /// Looks at the next token without taking it: what is still to come
    /// stays as it was.
    pub fn peek(&mut self, interner: &mut Interner) -> (r: Result<Option<Token>, TokenizeError>)
        requires
            old(self).wf(),
            old(interner).wf(),
        ensures
            final(self).wf(),
            final(interner).wf(),
            (final(self)@, final(interner)@, r) == old(self)@.peek(old(interner)@),
            final(self)@.upcoming(final(interner)@) == old(self)@.upcoming(old(interner)@),
            ({
                let before = old(self)@.upcoming(old(interner)@);
                r == if before.tokens.len() > 0 {
                    Ok::<Option<Token>, TokenizeError>(Some(before.tokens[0]))
                } else {
                    match before.failure {
                        Some(e) => Err::<Option<Token>, TokenizeError>(e),
                        None => Ok(None),
                    }
                }
            }),
    {
        let ghost rest = self@.lexer.rest(interner@);
        if self.buffered_tokens.len() == 0 {
            assert(self@.buffered + rest.tokens =~= rest.tokens);
            match self.lexer.next(interner) {
                Ok(Some(tok)) => {
                    self.buffered_tokens.push_back(tok);
                    assert(self.buffered_tokens@ =~= seq![tok]);
                    assert(seq![tok] + self@.lexer.rest(interner@).tokens =~= rest.tokens);
                    Ok(Some(tok))
                },
                Ok(None) => {
                    assert(self@.buffered + self@.lexer.rest(interner@).tokens
                        =~= self@.lexer.rest(interner@).tokens);
                    Ok(None)
                },
                Err(e) => {
                    assert(self@.buffered + self@.lexer.rest(interner@).tokens
                        =~= self@.lexer.rest(interner@).tokens);
                    Err(e)
                },
            }
        } else {
            Ok(Some(self.buffered_tokens[0]))
        }
    }

    /// Puts `tok` back: it is the next token to come.
    pub fn put_back(&mut self, tok: Token)
        ensures
            final(self)@ == (ParserView { buffered: seq![tok] + old(self)@.buffered, ..old(self)@ }),
    {
        self.buffered_tokens.push_front(tok);
    }

    /// Takes the next token and holds it against `expected`.
    pub fn consume(&mut self, expected: Token, interner: &mut Interner) -> (r: Result<
        Token,
        ConsumeError,
    >)
        requires
            old(self).wf(),
            old(interner).wf(),
        ensures
            final(self).wf(),
            final(interner).wf(),
            final(self)@ == old(self)@.next_token(old(interner)@).0,
            final(interner)@ == old(self)@.next_token(old(interner)@).1,
            r == match old(self)@.next_token(old(interner)@).2 {
                Ok(Some(t)) => if t == expected {
                    Ok(t)
                } else {
                    Err(ConsumeError::Unexpected { expected, found: t })
                },
                Ok(None) => Err(ConsumeError::EndOfStream { expected }),
                Err(e) => Err(ConsumeError::Lexer(e)),
            },
    {
        match self.next_token(interner) {
            Ok(Some(t)) => if t == expected {
                Ok(t)
            } else {
                Err(ConsumeError::Unexpected { expected, found: t })
            },
            Ok(None) => Err(ConsumeError::EndOfStream { expected }),
            Err(e) => Err(ConsumeError::Lexer(e)),
        }
    }
}

impl TokenStream for Parser {
    open spec fn stream_wf(&self) -> bool {
        self.wf()
    }

    fn next_token(&mut self, interner: &mut Interner) -> (r: Result<Option<Token>, TokenizeError>)
        ensures
            (final(self)@, final(interner)@, r) == old(self)@.next_token(old(interner)@),
    {
        Parser::next_token(self, interner)
    }

    open spec fn upcoming(&self, pool: InternerView) -> Outcome {
        self@.upcoming(pool)
    }
}

/// Looking at a token changes nothing of what is still to come, and the token
/// looked at is the first of it; taking a token takes that first one away.
pub proof fn lemma_peek_keeps_upcoming(v: ParserView, pool: InternerView)
    requires
        v.lexer.wf(),
        v.lexer.next_line_shaped(),
    ensures
        ({
            let before = v.upcoming(pool);
            let (peeked, pool1, seen) = v.peek(pool);
            let (taken, pool2, got) = v.next_token(pool);
            &&& peeked.lexer.wf()
            &&& taken.lexer.wf()
            &&& peeked.upcoming(pool1) == before
            &&& before.tokens.len() > 0 ==> seen == Ok::<Option<Token>, TokenizeError>(
                Some(before.tokens[0]),
            ) && got == seen && taken.upcoming(pool2) == (Outcome {
                tokens: before.tokens.drop_first(),
                ..before
            })
            &&& before.tokens.len() == 0 ==> got == seen && seen == match before.failure {
                Some(e) => Err::<Option<Token>, TokenizeError>(e),
                None => Ok(None),
            }
        }),
{
    let before = v.upcoming(pool);
    let rest = v.lexer.rest(pool);
    lemma_next_follows_rest(v.lexer, pool);
    let (l2, p2, r) = v.lexer.next(pool);
    let rest2 = l2.rest(p2);
    if v.buffered.len() > 0 {
        assert((v.buffered + rest.tokens).drop_first() =~= v.buffered.drop_first() + rest.tokens);
    } else {
        assert(v.buffered + rest.tokens =~= rest.tokens);
        assert(v.buffered + rest2.tokens =~= rest2.tokens);
        if rest.tokens.len() > 0 {
            let t = rest.tokens[0];
            assert(seq![t] + rest2.tokens =~= rest.tokens);
        }
    }
}

} // verus!
