use crate::error::TokenizeError;
use crate::interner::{Interner, InternerView};
use crate::lexer::{Lexer, Outcome};
use crate::token::Token;
use vstd::prelude::*;

verus! {

/// A producer of tokens that is pulled one token at a time. It is all that
/// a parser sees of a source.
pub trait TokenStream {
    /// Whether the stream is fit for use.
    spec fn stream_wf(&self) -> bool;

    /// What is still to come from the stream when it works with an interner
    /// of value `pool`: the tokens in order, the failure that ends them, if
    /// one does, and the interner afterwards.
    spec fn upcoming(&self, pool: InternerView) -> Outcome;

    /// The next token: the first of what was still to come, which then is
    /// what was behind it. When no token is left, this reports the failure
    /// that ended them, or that nothing follows. What the whole comes to,
    /// failure and interner, does not change on the way.
    fn next_token(&mut self, interner: &mut Interner) -> (r: Result<Option<Token>, TokenizeError>)
        requires
            old(self).stream_wf(),
            old(interner).wf(),
        ensures
            final(self).stream_wf(),
            final(interner).wf(),
            ({
                let before = old(self).upcoming(old(interner)@);
                let after = final(self).upcoming(final(interner)@);
                &&& after.pool == before.pool
                &&& after.failure == before.failure
                &&& before.tokens.len() > 0 ==> r == Ok::<Option<Token>, TokenizeError>(
                    Some(before.tokens[0]),
                ) && after.tokens == before.tokens.drop_first()
                &&& before.tokens.len() == 0 ==> after.tokens.len() == 0 && r == match before.failure {
                    Some(e) => Err::<Option<Token>, TokenizeError>(e),
                    None => Ok(None),
                }
            }),
    ;
}

impl TokenStream for Lexer {
    open spec fn stream_wf(&self) -> bool {
        self.wf()
    }

    open spec fn upcoming(&self, pool: InternerView) -> Outcome {
        self@.rest(pool)
    }

    fn next_token(&mut self, interner: &mut Interner) -> (r: Result<Option<Token>, TokenizeError>)
        ensures
            (final(self)@, final(interner)@, r) == old(self)@.next(old(interner)@),
    {
        self.next(interner)
    }
}

} // verus!
