//! Production rules.
use vstd::prelude::*;
use crate::symbol::{Symbol, SymbolType, handle_text};
use crate::tables::SymbolTable;

verus! {

/// A production rule: a head nonterminal and the body symbols, all given by
/// their indices in the symbol table.
#[derive(Debug)]
pub struct ProductionRule {
    pub index: usize,
    pub head: usize,
    pub symbols: Vec<usize>,
}

/// Whether every symbol the rule names lies in a table of `n` symbols.
pub open spec fn rule_in_range(r: ProductionRule, n: nat) -> bool {
    &&& r.head < n
    &&& forall|i: int| 0 <= i < r.symbols@.len() ==> #[trigger] r.symbols@[i] < n
}

/// The handles of the body symbols, separated by single spaces.
pub open spec fn body_text(t: Seq<Symbol>, body: Seq<usize>) -> Seq<char>
    decreases body.len(),
{
    if body.len() == 0 {
        Seq::empty()
    } else if body.len() == 1 {
        handle_text(t[body[0] as int].name@, t[body[0] as int].kind)
    } else {
        body_text(t, body.drop_last()) + seq![' '] + handle_text(t[body.last() as int].name@, t[body.last() as int].kind)
    }
}

/// The Backus-Naur form of a rule: `<Head> ::= body...`.
pub open spec fn rule_text(t: Seq<Symbol>, r: ProductionRule) -> Seq<char> {
    handle_text(t[r.head as int].name@, t[r.head as int].kind) + seq![' ', ':', ':', '=', ' '] + body_text(t, r.symbols@)
}

impl ProductionRule {
    pub fn new(index: usize, head: usize, symbols: Vec<usize>) -> (r: ProductionRule)
        ensures
            r.index == index,
            r.head == head,
            r.symbols@ == symbols@,
    {
        ProductionRule { index, head, symbols }
    }

    /// Whether the body is a single nonterminal.
    pub fn has_only_nonterminal(&self, table: &SymbolTable) -> (r: bool)
        requires
            rule_in_range(*self, table@.len()),
        ensures
            r == (self.symbols@.len() == 1 && table@[self.symbols@[0] as int].kind == SymbolType::NonTerminal),
    {
        self.symbols.len() == 1 && table.0[self.symbols[0]].kind == SymbolType::NonTerminal
    }

    /// The index of the head symbol.
    pub fn head(&self) -> (r: usize)
        ensures
            r == self.head,
    {
        self.head
    }

    /// The body of the rule written out, symbols separated by spaces.
    pub fn handle(&self, table: &SymbolTable) -> (r: String)
        requires
            rule_in_range(*self, table@.len()),
        ensures
            r@ == body_text(table@, self.symbols@),
    {
        let mut r = String::new();
        let mut i: usize = 0;
        proof {
            reveal_strlit(" ");
            assert(self.symbols@.subrange(0, 0).len() == 0);
        }
        while i < self.symbols.len()
            invariant
                0 <= i <= self.symbols@.len(),
                rule_in_range(*self, table@.len()),
                r@ == body_text(table@, self.symbols@.subrange(0, i as int)),
            decreases self.symbols@.len() - i,
        {
            proof {
                reveal_strlit(" ");
            }
            let s = self.symbols[i];
            let h = table.0[s].as_handle();
            let ghost pre = self.symbols@.subrange(0, i as int + 1);
            assert(pre.drop_last() =~= self.symbols@.subrange(0, i as int));
            if i > 0 {
                r.append(" ");
            }
            r.append(h.as_str());
            assert(pre.last() == s);
            if i == 0 {
                assert(pre.len() == 1 && pre[0] == s);
                assert(r@ =~= body_text(table@, pre));
            } else {
                assert(r@ =~= body_text(table@, pre));
            }
            i = i + 1;
        }
        assert(self.symbols@.subrange(0, self.symbols@.len() as int) =~= self.symbols@);
        r
    }

    /// The Backus-Naur form of the rule.
    pub fn to_string(&self, table: &SymbolTable) -> (r: String)
        requires
            rule_in_range(*self, table@.len()),
        ensures
            r@ == rule_text(table@, *self),
    {
        proof {
            reveal_strlit(" ::= ");
        }
        let mut r = table.0[self.head].as_handle();
        r.append(" ::= ");
        let b = self.handle(table);
        r.append(b.as_str());
        assert(r@ =~= rule_text(table@, *self));
        r
    }
}

} // verus!
