//! The indexed tables of a grammar.
use vstd::prelude::*;
use crate::charset::CharacterSet;
use crate::group::LexicalGroup;
use crate::production::ProductionRule;
use crate::states::{DFAState, LALRState};
use crate::symbol::{Symbol, SymbolType, handle_text};

verus! {

/// The symbols of a grammar, by index.
#[derive(Debug)]
pub struct SymbolTable(pub Vec<Symbol>);

impl View for SymbolTable {
    type V = Seq<Symbol>;

    open spec fn view(&self) -> Seq<Symbol> {
        self.0@
    }
}

/// The position of the first symbol, from `i` on, named `name`.
pub open spec fn symbol_named_from(t: Seq<Symbol>, name: Seq<char>, i: int) -> Option<int>
    decreases t.len() - i,
{
    if i < 0 || i >= t.len() {
        None
    } else if t[i].name@ == name {
        Some(i)
    } else {
        symbol_named_from(t, name, i + 1)
    }
}

/// The position of the first symbol, from `i` on, of kind `kind`.
pub open spec fn symbol_of_kind_from(t: Seq<Symbol>, kind: SymbolType, i: int) -> Option<int>
    decreases t.len() - i,
{
    if i < 0 || i >= t.len() {
        None
    } else if t[i].kind == kind {
        Some(i)
    } else {
        symbol_of_kind_from(t, kind, i + 1)
    }
}

/// The handles of all symbols, each followed by a space, then a newline.
pub open spec fn handles_line(t: Seq<Symbol>) -> Seq<char>
    decreases t.len(),
{
    if t.len() == 0 {
        seq!['\n']
    } else {
        handle_text(t[0].name@, t[0].kind) + seq![' '] + handles_line(t.subrange(1, t.len() as int))
    }
}

impl SymbolTable {
    pub fn new() -> (r: SymbolTable)
        ensures
            r@.len() == 0,
    {
        SymbolTable(Vec::new())
    }

    pub fn with_capacity(size: usize) -> (r: SymbolTable)
        ensures
            r@.len() == 0,
    {
        SymbolTable(Vec::with_capacity(size))
    }

    pub fn push(&mut self, item: Symbol)
        ensures
            final(self)@ == old(self)@.push(item),
    {
        self.0.push(item);
    }

    pub fn len(&self) -> (r: usize)
        ensures
            r == self@.len(),
    {
        self.0.len()
    }

    pub fn is_empty(&self) -> (r: bool)
        ensures
            r == (self@.len() == 0),
    {
        self.0.len() == 0
    }

    pub fn clear(&mut self)
        ensures
            final(self)@.len() == 0,
    {
        self.0.clear();
    }

    /// Stores `item` at the position of its own index.
    pub fn add(&mut self, item: Symbol)
        requires
            item.index < old(self)@.len(),
        ensures
            final(self)@ == old(self)@.update(item.index as int, item),
    {
        let i = item.index;
        self.0.set(i, item);
    }

    /// Grows or shrinks the table to `sz` entries; new entries are unnamed
    /// symbols of undefined kind, indexed by their position.
    pub fn resize(&mut self, sz: usize)
        ensures
            final(self)@.len() == sz,
            forall|i: int| 0 <= i < sz && i < old(self)@.len() ==> final(self)@[i] == old(self)@[i],
            forall|i: int| old(self)@.len() <= i < sz ==> (#[trigger] final(self)@[i]).index == i
                && final(self)@[i].kind == SymbolType::Undefined && final(self)@[i].name@.len() == 0,
    {
        if sz <= self.0.len() {
            self.0.truncate(sz);
        } else {
            while self.0.len() < sz
                invariant
                    old(self)@.len() <= self@.len() <= sz,
                    forall|i: int| 0 <= i < old(self)@.len() ==> self@[i] == old(self)@[i],
                    forall|i: int| old(self)@.len() <= i < self@.len() ==> (#[trigger] self@[i]).index == i
                        && self@[i].kind == SymbolType::Undefined && self@[i].name@.len() == 0,
                decreases sz - self@.len(),
            {
                let i = self.0.len();
                self.0.push(Symbol::new(i, String::new(), SymbolType::Undefined));
            }
        }
    }

    /// Stores `value` at position `index`.
    pub fn insert(&mut self, index: usize, value: Symbol)
        requires
            index < old(self)@.len(),
        ensures
            final(self)@ == old(self)@.update(index as int, value),
    {
        self.0.set(index, value);
    }

    /// The first symbol named `name`.
    pub fn get(&self, name: &String) -> (r: Option<&Symbol>)
        ensures
            match symbol_named_from(self@, name@, 0) {
                Some(i) => r == Some(&self@[i]),
                None => r.is_none(),
            },
    {
        let mut i: usize = 0;
        while i < self.0.len()
            invariant
                0 <= i <= self@.len(),
                symbol_named_from(self@, name@, 0) == symbol_named_from(self@, name@, i as int),
            decreases self@.len() - i,
        {
            if self.0[i].name == *name {
                return Some(&self.0[i]);
            }
            i = i + 1;
        }
        None
    }

    /// The first symbol of kind `kind`.
    pub fn get_by_type(&self, kind: SymbolType) -> (r: Option<&Symbol>)
        ensures
            match symbol_of_kind_from(self@, kind, 0) {
                Some(i) => r == Some(&self@[i]),
                None => r.is_none(),
            },
    {
        let mut i: usize = 0;
        while i < self.0.len()
            invariant
                0 <= i <= self@.len(),
                symbol_of_kind_from(self@, kind, 0) == symbol_of_kind_from(self@, kind, i as int),
            decreases self@.len() - i,
        {
            if self.0[i].kind == kind {
                return Some(&self.0[i]);
            }
            i = i + 1;
        }
        None
    }

    /// The handles of all symbols on one line, each followed by a space.
    pub fn as_handle(&self) -> (r: String)
        ensures
            r@ == handles_line(self@),
    {
        let mut i: usize = self.0.len();
        let mut r = String::from_str("\n");
        proof {
            reveal_strlit("\n");
            reveal_strlit(" ");
            assert(self@.subrange(self@.len() as int, self@.len() as int).len() == 0);
        }
        while i > 0
            invariant
                0 <= i <= self@.len(),
                r@ == handles_line(self@.subrange(i as int, self@.len() as int)),
            decreases i,
        {
            proof {
                reveal_strlit(" ");
            }
            i = i - 1;
            let mut h = self.0[i].as_handle();
            h.append(" ");
            h.append(r.as_str());
            let ghost tail = self@.subrange(i as int, self@.len() as int);
            assert(tail.subrange(1, tail.len() as int) =~= self@.subrange(i + 1, self@.len() as int));
            assert(tail[0] == self@[i as int]);
            assert(h@ =~= handles_line(tail));
            r = h;
        }
        assert(self@.subrange(0, self@.len() as int) =~= self@);
        r
    }
}

/// The character sets of a grammar, by index.
#[derive(Debug)]
pub struct CharacterSetTable(pub Vec<CharacterSet>);

impl View for CharacterSetTable {
    type V = Seq<CharacterSet>;

    open spec fn view(&self) -> Seq<CharacterSet> {
        self.0@
    }
}

impl CharacterSetTable {
    pub fn new() -> (r: CharacterSetTable)
        ensures
            r@.len() == 0,
    {
        CharacterSetTable(Vec::new())
    }

    /// Stores `chars` at position `index`.
    pub fn add(&mut self, index: usize, chars: CharacterSet)
        requires
            index < old(self)@.len(),
        ensures
            final(self)@ == old(self)@.update(index as int, chars),
    {
        self.0.set(index, chars);
    }

    pub fn len(&self) -> (r: usize)
        ensures
            r == self@.len(),
    {
        self.0.len()
    }

    /// Whether some set of the table has exactly the ranges of `charset`.
    pub fn contains(&self, charset: &CharacterSet) -> (r: bool)
        ensures
            r == exists|i: int| 0 <= i < self@.len() && (#[trigger] self@[i])@ == charset@,
    {
        let mut i: usize = 0;
        while i < self.0.len()
            invariant
                0 <= i <= self@.len(),
                forall|k: int| 0 <= k < i ==> (#[trigger] self@[k])@ != charset@,
            decreases self@.len() - i,
        {
            if same_ranges(&self.0[i].ranges, &charset.ranges) {
                return true;
            }
            i = i + 1;
        }
        false
    }

    /// Grows or shrinks the table to `sz` entries; new entries are empty sets.
    pub fn resize(&mut self, sz: usize)
        ensures
            final(self)@.len() == sz,
            forall|i: int| 0 <= i < sz && i < old(self)@.len() ==> final(self)@[i] == old(self)@[i],
            forall|i: int| old(self)@.len() <= i < sz ==> (#[trigger] final(self)@[i])@.len() == 0,
    {
        if sz <= self.0.len() {
            self.0.truncate(sz);
        } else {
            while self.0.len() < sz
                invariant
                    old(self)@.len() <= self@.len() <= sz,
                    forall|i: int| 0 <= i < old(self)@.len() ==> self@[i] == old(self)@[i],
                    forall|i: int| old(self)@.len() <= i < self@.len() ==> (#[trigger] self@[i])@.len() == 0,
                decreases sz - self@.len(),
            {
                self.0.push(CharacterSet::empty());
            }
        }
    }
}

fn same_ranges(a: &Vec<(u32, u32)>, b: &Vec<(u32, u32)>) -> (r: bool)
    ensures
        r == (a@ == b@),
{
    if a.len() != b.len() {
        return false;
    }
    let mut i: usize = 0;
    while i < a.len()
        invariant
            a@.len() == b@.len(),
            0 <= i <= a@.len(),
            forall|k: int| 0 <= k < i ==> a@[k] == b@[k],
        decreases a@.len() - i,
    {
        if a[i].0 != b[i].0 || a[i].1 != b[i].1 {
            assert(a@[i as int] != b@[i as int]);
            return false;
        }
        i = i + 1;
    }
    assert(a@ =~= b@);
    true
}

/// The production rules of a grammar, by index.
#[derive(Debug)]
pub struct ProductionTable(pub Vec<ProductionRule>);

impl View for ProductionTable {
    type V = Seq<ProductionRule>;

    open spec fn view(&self) -> Seq<ProductionRule> {
        self.0@
    }
}

impl ProductionTable {
    pub fn new() -> (r: ProductionTable)
        ensures
            r@.len() == 0,
    {
        ProductionTable(Vec::new())
    }

    pub fn with_capacity(capacity: usize) -> (r: ProductionTable)
        ensures
            r@.len() == 0,
    {
        ProductionTable(Vec::with_capacity(capacity))
    }

    /// The rule at position `index`, if there is one.
    pub fn get(&self, index: usize) -> (r: Option<&ProductionRule>)
        ensures
            index < self@.len() ==> r == Some(&self@[index as int]),
            index >= self@.len() ==> r.is_none(),
    {
        if index < self.0.len() {
            Some(&self.0[index])
        } else {
            None
        }
    }

    /// Stores `rule` at the position of its own index.
    pub fn add(&mut self, rule: ProductionRule)
        requires
            rule.index < old(self)@.len(),
        ensures
            final(self)@ == old(self)@.update(rule.index as int, rule),
    {
        let i = rule.index;
        self.0.set(i, rule);
    }

    pub fn len(&self) -> (r: usize)
        ensures
            r == self@.len(),
    {
        self.0.len()
    }
}

/// The states of the tokenizer's DFA, by index.
#[derive(Debug)]
pub struct DFAStateTable(pub Vec<DFAState>);

impl View for DFAStateTable {
    type V = Seq<DFAState>;

    open spec fn view(&self) -> Seq<DFAState> {
        self.0@
    }
}

impl DFAStateTable {
    pub fn new() -> (r: DFAStateTable)
        ensures
            r@.len() == 0,
    {
        DFAStateTable(Vec::new())
    }

    /// Stores `state` at the position of its own index.
    pub fn add(&mut self, state: DFAState)
        requires
            state.index < old(self)@.len(),
        ensures
            final(self)@ == old(self)@.update(state.index as int, state),
    {
        let i = state.index;
        self.0.set(i, state);
    }

    pub fn len(&self) -> (r: usize)
        ensures
            r == self@.len(),
    {
        self.0.len()
    }
}

/// The states of the LALR machine, by index.
#[derive(Debug)]
pub struct LALRStateTable(pub Vec<LALRState>);

impl View for LALRStateTable {
    type V = Seq<LALRState>;

    open spec fn view(&self) -> Seq<LALRState> {
        self.0@
    }
}

impl LALRStateTable {
    pub fn new() -> (r: LALRStateTable)
        ensures
            r@.len() == 0,
    {
        LALRStateTable(Vec::new())
    }

    /// Stores `state` at the position of its own index.
    pub fn add(&mut self, state: LALRState)
        requires
            state.index < old(self)@.len(),
        ensures
            final(self)@ == old(self)@.update(state.index as int, state),
    {
        let i = state.index;
        self.0.set(i, state);
    }

    pub fn len(&self) -> (r: usize)
        ensures
            r == self@.len(),
    {
        self.0.len()
    }
}

/// The lexical groups of a grammar, by index.
#[derive(Debug)]
pub struct GroupTable(pub Vec<LexicalGroup>);

impl View for GroupTable {
    type V = Seq<LexicalGroup>;

    open spec fn view(&self) -> Seq<LexicalGroup> {
        self.0@
    }
}

impl GroupTable {
    pub fn new() -> (r: GroupTable)
        ensures
            r@.len() == 0,
    {
        GroupTable(Vec::new())
    }

    /// Stores `group` at the position of its own index.
    pub fn add(&mut self, group: LexicalGroup)
        requires
            group.index < old(self)@.len(),
        ensures
            final(self)@ == old(self)@.update(group.index as int, group),
    {
        let i = group.index;
        self.0.set(i, group);
    }

    pub fn len(&self) -> (r: usize)
        ensures
            r == self@.len(),
    {
        self.0.len()
    }
}

} // verus!
