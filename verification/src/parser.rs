//! The parsing stub: it fetches the first token and holds its own copy of
//! the scanner. No grammar lives here.

use vstd::prelude::*;

use crate::lexer::{LexError, Lexer, Token};
use crate::scan::{spec_next, LexErrorModel, TokenModel};

verus! {

/// A parser over one token stream: the token fetched so far, and the scanner
/// it came from.
pub struct Parser {
    pub token: Token,
    pub lexer: Lexer,
}

impl Parser {
    /// Builds a parser by fetching the first token from `lexer`, which is
    /// advanced past it; the parser keeps its own copy of the advanced
    /// scanner. A fatal lexical error in the first token is handed back
    /// instead.
    pub fn new(lexer: &mut Lexer) -> (r: Result<Parser, LexError>)
        requires
            old(lexer).wf(),
        ensures
            final(lexer).wf(),
            final(lexer).src_seq() == old(lexer).src_seq(),
            final(lexer).label() == old(lexer).label(),
            old(lexer).failure() is Some ==> {
                &&& r == Err::<Parser, LexError>(old(lexer).failure().unwrap())
                &&& *final(lexer) == *old(lexer)
            },
            old(lexer).failure() is None ==> {
                let step = spec_next(old(lexer).src_seq(), old(lexer).pos());
                &&& final(lexer).pos() == step.end
                &&& (match r {
                    Ok(p) => {
                        &&& step.result is Ok
                        &&& p.token@ == step.result->Ok_0
                        &&& p.lexer == *final(lexer)
                    },
                    Err(e) => step.result == Err::<TokenModel, LexErrorModel>(e@),
                })
            },
    {
        match lexer.next_token() {
            Ok(token) => Ok(Parser { token, lexer: lexer.clone() }),
            Err(e) => Err(e),
        }
    }
}

} // verus!
