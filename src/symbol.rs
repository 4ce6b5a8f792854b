//! Grammar symbols and their textual forms.
use vstd::prelude::*;

verus! {

/// The class of a grammar symbol.
#[derive(Debug, Clone, Copy, PartialEq, Eq, Structural)]
pub enum SymbolType {
    /// A slot that no symbol record has filled.
    Undefined,
    /// A normal nonterminal.
    NonTerminal,
    /// A normal terminal, passed on to the parser.
    Terminal,
    /// A terminal that the parser ignores (whitespace, comments).
    Noise,
    /// The synthetic terminal that marks the end of the source.
    EndOfFile,
    /// The start of a lexical group.
    GroupStart,
    /// The end of a lexical group.
    GroupEnd,
    /// A class of older table formats, not used any more.
    Deprecated,
    /// The terminal that the tokenizer reports for unrecognised input.
    Error,
}

/// The symbol kind stored under `code` in a table file, if any.
pub open spec fn symbol_type_of_code(code: u16) -> Option<SymbolType> {
    if code == 0 {
        Some(SymbolType::NonTerminal)
    } else if code == 1 {
        Some(SymbolType::Terminal)
    } else if code == 2 {
        Some(SymbolType::Noise)
    } else if code == 3 {
        Some(SymbolType::EndOfFile)
    } else if code == 4 {
        Some(SymbolType::GroupStart)
    } else if code == 5 {
        Some(SymbolType::GroupEnd)
    } else if code == 6 {
        Some(SymbolType::Deprecated)
    } else if code == 7 {
        Some(SymbolType::Error)
    } else {
        None
    }
}

/// The left and right delimiters of a symbol of the given kind.
pub open spec fn delimiters(kind: SymbolType) -> (Seq<char>, Seq<char>) {
    match kind {
        SymbolType::NonTerminal => (seq!['<'], seq!['>']),
        SymbolType::Terminal => (seq!['\''], seq!['\'']),
        _ => (seq!['('], seq![')']),
    }
}

/// The textual form of a symbol: `<Name>`, `'Name'` or `(Name)`.
pub open spec fn handle_text(name: Seq<char>, kind: SymbolType) -> Seq<char> {
    delimiters(kind).0 + name + delimiters(kind).1
}

impl SymbolType {
    /// Decodes a symbol kind from its table-file code.
    pub fn from_u16(code: u16) -> (r: Option<SymbolType>)
        ensures
            r == symbol_type_of_code(code),
    {
        match code {
            0 => Some(SymbolType::NonTerminal),
            1 => Some(SymbolType::Terminal),
            2 => Some(SymbolType::Noise),
            3 => Some(SymbolType::EndOfFile),
            4 => Some(SymbolType::GroupStart),
            5 => Some(SymbolType::GroupEnd),
            6 => Some(SymbolType::Deprecated),
            7 => Some(SymbolType::Error),
            _ => None,
        }
    }

    /// The template in which a symbol of this kind is written, `{}` standing
    /// for its name.
    pub fn format(&self) -> (r: String)
        ensures
            r@ == delimiters(*self).0 + seq!['{', '}'] + delimiters(*self).1,
    {
        proof {
            reveal_strlit("<{}>");
            reveal_strlit("'{}'");
            reveal_strlit("({})");
        }
        match self {
            SymbolType::NonTerminal => {
                let r = String::from_str("<{}>");
                assert(r@ =~= delimiters(*self).0 + seq!['{', '}'] + delimiters(*self).1);
                r
            },
            SymbolType::Terminal => {
                let r = String::from_str("'{}'");
                assert(r@ =~= delimiters(*self).0 + seq!['{', '}'] + delimiters(*self).1);
                r
            },
            _ => {
                let r = String::from_str("({})");
                assert(r@ =~= delimiters(*self).0 + seq!['{', '}'] + delimiters(*self).1);
                r
            },
        }
    }
}

/// A grammar symbol: its index in the symbol table, its name and its kind.
#[derive(Debug)]
pub struct Symbol {
    pub index: usize,
    pub name: String,
    pub kind: SymbolType,
}

impl Symbol {
    pub fn new(index: usize, name: String, kind: SymbolType) -> (r: Symbol)
        ensures
            r.index == index,
            r.name@ == name@,
            r.kind == kind,
    {
        Symbol { index, name, kind }
    }

    /// The textual form of the symbol: `<Name>` for a nonterminal, `'Name'`
    /// for a terminal, `(Name)` for any other kind.
    pub fn as_handle(&self) -> (r: String)
        ensures
            r@ == handle_text(self.name@, self.kind),
    {
        proof {
            reveal_strlit("<");
            reveal_strlit(">");
            reveal_strlit("'");
            reveal_strlit("(");
            reveal_strlit(")");
        }
        let (open, close) = match self.kind {
            SymbolType::NonTerminal => ("<", ">"),
            SymbolType::Terminal => ("'", "'"),
            _ => ("(", ")"),
        };
        let mut r = String::from_str(open);
        r.append(self.name.as_str());
        r.append(close);
        assert(r@ =~= handle_text(self.name@, self.kind));
        r
    }

    /// A copy of the symbol.
    pub fn duplicate(&self) -> (r: Symbol)
        ensures
            r.index == self.index,
            r.name@ == self.name@,
            r.kind == self.kind,
    {
        Symbol { index: self.index, name: self.name.clone(), kind: self.kind }
    }
}

impl PartialEq for Symbol {
    /// Symbols are equal when index, name and kind agree.
    fn eq(&self, other: &Symbol) -> (r: bool) {
        self.index == other.index && self.kind == other.kind && self.name == other.name
    }
}

impl vstd::std_specs::cmp::PartialEqSpecImpl for Symbol {
    open spec fn obeys_eq_spec() -> bool {
        true
    }

    open spec fn eq_spec(&self, other: &Symbol) -> bool {
        self.index == other.index && self.kind == other.kind && self.name@ == other.name@
    }
}

} // verus!
