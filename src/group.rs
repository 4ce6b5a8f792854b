//! Lexical groups: bracketed spans such as block comments.
use vstd::prelude::*;

verus! {

/// How the tokenizer moves through the inside of a group.
#[derive(Debug, Clone, Copy, PartialEq, Eq, Structural)]
pub enum AdvanceMode {
    /// One token at a time.
    Token,
    /// One character at a time.
    Character,
}

/// What becomes of the symbol that ends a group.
#[derive(Debug, Clone, Copy, PartialEq, Eq, Structural)]
pub enum EndingMode {
    /// The end symbol is left on the input.
    Open,
    /// The end symbol is consumed into the group's text.
    Closed,
}

/// The advance mode stored under `code` in a table file.
pub open spec fn advance_mode_of_code(code: u16) -> Option<AdvanceMode> {
    if code == 0 {
        Some(AdvanceMode::Token)
    } else if code == 1 {
        Some(AdvanceMode::Character)
    } else {
        None
    }
}

/// The ending mode stored under `code` in a table file.
pub open spec fn ending_mode_of_code(code: u16) -> Option<EndingMode> {
    if code == 0 {
        Some(EndingMode::Open)
    } else if code == 1 {
        Some(EndingMode::Closed)
    } else {
        None
    }
}

impl AdvanceMode {
    pub fn from_u16(code: u16) -> (r: Option<AdvanceMode>)
        ensures
            r == advance_mode_of_code(code),
    {
        match code {
            0 => Some(AdvanceMode::Token),
            1 => Some(AdvanceMode::Character),
            _ => None,
        }
    }
}

impl EndingMode {
    pub fn from_u16(code: u16) -> (r: Option<EndingMode>)
        ensures
            r == ending_mode_of_code(code),
    {
        match code {
            0 => Some(EndingMode::Open),
            1 => Some(EndingMode::Closed),
            _ => None,
        }
    }
}

/// A lexical group: the symbols that contain, start and end it, how it is
/// read, and which groups may nest inside it.
#[derive(Debug)]
pub struct LexicalGroup {
    pub index: usize,
    pub name: String,
    pub container_idx: usize,
    pub start_idx: usize,
    pub end_idx: usize,
    pub advance_mode: AdvanceMode,
    pub ending_mode: EndingMode,
    pub nested: Vec<usize>,
}

impl LexicalGroup {
    /// Whether group `g` may open inside this one.
    pub fn permits_nested(&self, g: usize) -> (r: bool)
        ensures
            r == self.nested@.contains(g),
    {
        let mut i: usize = 0;
        while i < self.nested.len()
            invariant
                0 <= i <= self.nested@.len(),
                forall|j: int| 0 <= j < i ==> self.nested@[j] != g,
            decreases self.nested@.len() - i,
        {
            if self.nested[i] == g {
                assert(self.nested@[i as int] == g);
                return true;
            }
            i = i + 1;
        }
        false
    }
}

} // verus!
