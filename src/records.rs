//! Small records of a grammar table: properties, table sizes, start states.
use vstd::prelude::*;

verus! {

/// A named property of the grammar (its name, version, author, ...).
#[derive(Debug)]
pub struct PropertyRecord {
    pub index: usize,
    pub name: String,
    pub value: String,
}

impl PropertyRecord {
    pub fn new(index: usize, name: String, value: String) -> (r: PropertyRecord)
        ensures
            r.index == index,
            r.name@ == name@,
            r.value@ == value@,
    {
        PropertyRecord { index, name, value }
    }
}

/// The declared number of entries of each table.
#[derive(Debug, Clone, Copy, PartialEq, Eq, Structural)]
pub struct TableCountsRecord {
    pub symtab: u16,
    pub charset: u16,
    pub rules: u16,
    pub dfatab: u16,
    pub lalrtab: u16,
    pub lexgroups: u16,
}

impl TableCountsRecord {
    pub fn new(symtab: u16, charset: u16, rules: u16, dfatab: u16, lalrtab: u16, lexgroups: u16) -> (r: TableCountsRecord)
        ensures
            r == (TableCountsRecord { symtab, charset, rules, dfatab, lalrtab, lexgroups }),
    {
        TableCountsRecord { symtab, charset, rules, dfatab, lalrtab, lexgroups }
    }

    /// All counts zero.
    pub open spec fn zero_spec() -> TableCountsRecord {
        TableCountsRecord { symtab: 0, charset: 0, rules: 0, dfatab: 0, lalrtab: 0, lexgroups: 0 }
    }

    /// All counts zero.
    pub fn zero() -> (r: TableCountsRecord)
        ensures
            r == Self::zero_spec(),
    {
        TableCountsRecord { symtab: 0, charset: 0, rules: 0, dfatab: 0, lalrtab: 0, lexgroups: 0 }
    }
}

/// The start states of the DFA and of the LALR machine.
#[derive(Debug, Clone, Copy, PartialEq, Eq, Structural)]
pub struct InitialStatesRecord {
    pub dfa: u16,
    pub lalr: u16,
}

impl InitialStatesRecord {
    pub fn new(dfa: u16, lalr: u16) -> (r: InitialStatesRecord)
        ensures
            r == (InitialStatesRecord { dfa, lalr }),
    {
        InitialStatesRecord { dfa, lalr }
    }
}

} // verus!
