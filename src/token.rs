//! Tokens and reductions: the nodes of a parse tree.
use vstd::prelude::*;
use crate::position::Position;
use crate::symbol::SymbolType;

verus! {

/// An instance of a symbol: a terminal read from the source, or a
/// nonterminal formed by a reduction.
#[derive(Debug)]
pub struct Token {
    /// Index of the parent symbol in the symbol table.
    pub symbol: usize,
    /// Kind of the parent symbol.
    pub kind: SymbolType,
    /// Source text of a terminal; empty for a nonterminal.
    pub text: String,
    /// The reduction that formed a nonterminal.
    pub reduction: Option<Box<Reduction>>,
    /// The LALR state in which the token was pushed.
    pub lalr_state: usize,
    /// Where the token was read.
    pub pos: Position,
}

/// A reduced rule: the rule's index and the tokens of its body.
#[derive(Debug)]
pub struct Reduction {
    pub tokens: Vec<Token>,
    pub rule: usize,
}

impl Token {
    /// A terminal token with no reduction.
    pub fn new(symbol: usize, kind: SymbolType, text: String) -> (r: Token)
        ensures
            r.symbol == symbol,
            r.kind == kind,
            r.text@ == text@,
            r.reduction.is_none(),
            r.lalr_state == 0,
            r.pos == (Position { line: 1, col: 1 }),
    {
        Token { symbol, kind, text, reduction: None, lalr_state: 0, pos: Position::new() }
    }

    pub fn has_reduction(&self) -> (r: bool)
        ensures
            r == self.reduction.is_some(),
    {
        self.reduction.is_some()
    }

    /// Replaces the reduction.
    pub fn set_reduction(&mut self, reduction: Reduction)
        ensures
            final(self).reduction == Some(Box::new(reduction)),
            final(self).symbol == old(self).symbol,
            final(self).kind == old(self).kind,
            final(self).text == old(self).text,
            final(self).lalr_state == old(self).lalr_state,
            final(self).pos == old(self).pos,
    {
        self.reduction = Some(Box::new(reduction));
    }

    pub fn kind(&self) -> (r: SymbolType)
        ensures
            r == self.kind,
    {
        self.kind
    }

    pub fn state(&self) -> (r: usize)
        ensures
            r == self.lalr_state,
    {
        self.lalr_state
    }

    /// The reduction, if the token has one.
    pub fn reduction(&self) -> (r: Option<&Reduction>)
        ensures
            match self.reduction {
                Some(b) => r == Some(&*b),
                None => r.is_none(),
            },
    {
        match &self.reduction {
            Some(b) => Some(&**b),
            None => None,
        }
    }
}

impl Reduction {
    pub fn new(rule: usize, tokens: Vec<Token>) -> (r: Reduction)
        ensures
            r.rule == rule,
            r.tokens@ == tokens@,
    {
        Reduction { tokens, rule }
    }

    /// Number of tokens in the body.
    pub fn token_count(&self) -> (r: usize)
        ensures
            r == self.tokens@.len(),
    {
        self.tokens.len()
    }
}

} // verus!
