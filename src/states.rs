//! DFA states of the tokenizer and LALR states of the parser.
use vstd::prelude::*;
use crate::charset::{CharacterSet, in_ranges};

verus! {

/// What the LALR machine does on a lookahead symbol.
#[derive(Debug, Clone, Copy, PartialEq, Eq, Structural)]
pub enum ActionType {
    /// No action; a slot that no record has filled.
    Undefined,
    /// Push the lookahead and move to the target state.
    Shift,
    /// Reduce by the target rule.
    Reduce,
    /// After a reduction, move to the target state on the rule's head.
    Goto,
    /// The input is accepted.
    Accept,
}

/// The action kind stored under `code` in a table file.
pub open spec fn action_type_of_code(code: u16) -> Option<ActionType> {
    if code == 1 {
        Some(ActionType::Shift)
    } else if code == 2 {
        Some(ActionType::Reduce)
    } else if code == 3 {
        Some(ActionType::Goto)
    } else if code == 4 {
        Some(ActionType::Accept)
    } else {
        None
    }
}

impl ActionType {
    pub fn from_u16(code: u16) -> (r: Option<ActionType>)
        ensures
            r == action_type_of_code(code),
    {
        match code {
            1 => Some(ActionType::Shift),
            2 => Some(ActionType::Reduce),
            3 => Some(ActionType::Goto),
            4 => Some(ActionType::Accept),
            _ => None,
        }
    }
}

/// An edge of a DFA state: a character set, by its index in the character
/// set table, and the state it leads to.
#[derive(Debug, Clone, Copy, PartialEq, Eq, Structural)]
pub struct DFAEdge {
    pub chars: usize,
    pub target_state: usize,
}

/// A state of the tokenizer's DFA.  `accept_symbol` is meaningful only where
/// `accept` holds.
#[derive(Debug)]
pub struct DFAState {
    pub index: usize,
    pub accept: bool,
    pub accept_symbol: usize,
    pub edges: Vec<DFAEdge>,
}

/// Whether edge `e` admits code point `c`.
pub open spec fn edge_admits(e: DFAEdge, sets: Seq<CharacterSet>, c: u32) -> bool {
    e.chars < sets.len() && in_ranges(sets[e.chars as int]@, c)
}

/// The target of the first edge, from position `i` on, that admits `c`.
pub open spec fn first_edge_from(edges: Seq<DFAEdge>, sets: Seq<CharacterSet>, c: u32, i: int) -> Option<usize>
    decreases edges.len() - i,
{
    if i < 0 || i >= edges.len() {
        None
    } else if edge_admits(edges[i], sets, c) {
        Some(edges[i].target_state)
    } else {
        first_edge_from(edges, sets, c, i + 1)
    }
}

/// The target of the first edge that admits `c`, in the stored edge order.
pub open spec fn first_edge(edges: Seq<DFAEdge>, sets: Seq<CharacterSet>, c: u32) -> Option<usize> {
    first_edge_from(edges, sets, c, 0)
}

impl DFAState {
    pub fn new(index: usize, accept: bool, accept_symbol: usize, edges: Vec<DFAEdge>) -> (r: DFAState)
        ensures
            r.index == index,
            r.accept == accept,
            r.accept_symbol == accept_symbol,
            r.edges@ == edges@,
    {
        DFAState { index, accept, accept_symbol, edges }
    }

    /// The state that the first edge admitting `ch` leads to, if any edge does.
    pub fn find_edge(&self, charsets: &Vec<CharacterSet>, ch: char) -> (r: Option<usize>)
        ensures
            r == first_edge(self.edges@, charsets@, ch as u32),
    {
        let mut i: usize = 0;
        while i < self.edges.len()
            invariant
                0 <= i <= self.edges@.len(),
                first_edge(self.edges@, charsets@, ch as u32) == first_edge_from(self.edges@, charsets@, ch as u32, i as int),
            decreases self.edges@.len() - i,
        {
            let e = self.edges[i];
            if e.chars < charsets.len() && charsets[e.chars].contains(ch) {
                return Some(e.target_state);
            }
            i = i + 1;
        }
        None
    }
}

/// An action of an LALR state: on lookahead `symbol`, do `action` with
/// `target_idx` (a state for Shift and Goto, a rule for Reduce).
#[derive(Debug, Clone, Copy, PartialEq, Eq, Structural)]
pub struct LALRAction {
    pub symbol: usize,
    pub action: ActionType,
    pub target_idx: usize,
}

impl LALRAction {
    pub fn new(symbol: usize, action: ActionType, target_idx: usize) -> (r: LALRAction)
        ensures
            r == (LALRAction { symbol, action, target_idx }),
    {
        LALRAction { symbol, action, target_idx }
    }
}

/// A state of the LALR machine.
#[derive(Debug)]
pub struct LALRState {
    pub index: usize,
    pub actions: Vec<LALRAction>,
}

/// The first action, from position `i` on, whose lookahead is `sym`.
pub open spec fn action_from(actions: Seq<LALRAction>, sym: usize, i: int) -> Option<LALRAction>
    decreases actions.len() - i,
{
    if i < 0 || i >= actions.len() {
        None
    } else if actions[i].symbol == sym {
        Some(actions[i])
    } else {
        action_from(actions, sym, i + 1)
    }
}

/// The action on lookahead `sym`.
pub open spec fn action_for(actions: Seq<LALRAction>, sym: usize) -> Option<LALRAction> {
    action_from(actions, sym, 0)
}

impl LALRState {
    pub fn new(index: usize, actions: Vec<LALRAction>) -> (r: LALRState)
        ensures
            r.index == index,
            r.actions@ == actions@,
    {
        LALRState { index, actions }
    }

    /// The action of this state on lookahead symbol `symbol`.
    pub fn find_action(&self, symbol: usize) -> (r: Option<LALRAction>)
        ensures
            r == action_for(self.actions@, symbol),
    {
        let mut i: usize = 0;
        while i < self.actions.len()
            invariant
                0 <= i <= self.actions@.len(),
                action_for(self.actions@, symbol) == action_from(self.actions@, symbol, i as int),
            decreases self.actions@.len() - i,
        {
            if self.actions[i].symbol == symbol {
                return Some(self.actions[i]);
            }
            i = i + 1;
        }
        None
    }

    pub fn clear(&mut self)
        ensures
            final(self).index == old(self).index,
            final(self).actions@.len() == 0,
    {
        self.actions.clear();
    }
}

} // verus!
