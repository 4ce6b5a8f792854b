//! The grammar bundle: all tables of a compiled grammar.
use vstd::prelude::*;
use crate::charset::ranges_ordered;
use crate::group::LexicalGroup;
use crate::production::rule_in_range;
use crate::records::{InitialStatesRecord, PropertyRecord, TableCountsRecord};
use crate::states::{ActionType, DFAState, LALRAction, LALRState};
use crate::tables::{CharacterSetTable, DFAStateTable, GroupTable, LALRStateTable, ProductionTable, SymbolTable};

verus! {

/// A compiled grammar: properties, declared counts, and the tables of
/// character sets, symbols, groups, rules, DFA states and LALR states, with
/// the two start states.
#[derive(Debug)]
pub struct EnhancedGrammarTable {
    pub header: String,
    pub properties: Vec<PropertyRecord>,
    pub counts: TableCountsRecord,
    pub charset: CharacterSetTable,
    pub symbols: SymbolTable,
    pub groups: GroupTable,
    pub productions: ProductionTable,
    pub initial_states: InitialStatesRecord,
    pub dfa_states: DFAStateTable,
    pub lalr_states: LALRStateTable,
}

/// The position of the first property, from `i` on, named `name`.
pub open spec fn property_from(props: Seq<PropertyRecord>, name: Seq<char>, i: int) -> Option<int>
    decreases props.len() - i,
{
    if i < 0 || i >= props.len() {
        None
    } else if props[i].name@ == name {
        Some(i)
    } else {
        property_from(props, name, i + 1)
    }
}

/// The value of the first property named `name`; empty where there is none.
pub open spec fn property_text(props: Seq<PropertyRecord>, name: Seq<char>) -> Seq<char> {
    match property_from(props, name, 0) {
        Some(i) => props[i].value@,
        None => Seq::empty(),
    }
}

/// A DFA state whose references lie in tables of the given sizes.
pub open spec fn dfa_state_ok(s: DFAState, nsym: nat, nsets: nat, nstates: nat) -> bool {
    &&& (s.accept ==> s.accept_symbol < nsym)
    &&& forall|j: int| 0 <= j < s.edges@.len() ==> (#[trigger] s.edges@[j]).chars < nsets && s.edges@[j].target_state < nstates
}

/// An LALR action whose references lie in tables of the given sizes.
pub open spec fn action_ok(a: LALRAction, nsym: nat, nrules: nat, nstates: nat) -> bool {
    &&& a.symbol < nsym
    &&& (a.action == ActionType::Shift || a.action == ActionType::Goto) ==> a.target_idx < nstates
    &&& a.action == ActionType::Reduce ==> a.target_idx < nrules
}

/// An LALR state whose references lie in tables of the given sizes.
pub open spec fn lalr_state_ok(s: LALRState, nsym: nat, nrules: nat, nstates: nat) -> bool {
    forall|j: int| 0 <= j < s.actions@.len() ==> action_ok(#[trigger] s.actions@[j], nsym, nrules, nstates)
}

/// A group whose references lie in tables of the given sizes.
pub open spec fn group_ok(g: LexicalGroup, nsym: nat, ngroups: nat) -> bool {
    &&& g.container_idx < nsym
    &&& g.start_idx < nsym
    &&& g.end_idx < nsym
    &&& forall|j: int| 0 <= j < g.nested@.len() ==> #[trigger] g.nested@[j] < ngroups
}

impl EnhancedGrammarTable {
    /// A grammar with the given header and no entries.
    pub fn new(header: String) -> (r: EnhancedGrammarTable)
        ensures
            r.header@ == header@,
            r.properties@.len() == 0,
            r.charset@.len() == 0,
            r.symbols@.len() == 0,
            r.groups@.len() == 0,
            r.productions@.len() == 0,
            r.dfa_states@.len() == 0,
            r.lalr_states@.len() == 0,
            r.counts == TableCountsRecord::zero_spec(),
            r.initial_states == (InitialStatesRecord { dfa: 0, lalr: 0 }),
    {
        EnhancedGrammarTable {
            header,
            properties: Vec::new(),
            counts: TableCountsRecord::zero(),
            charset: CharacterSetTable::new(),
            symbols: SymbolTable::new(),
            groups: GroupTable::new(),
            productions: ProductionTable::new(),
            initial_states: InitialStatesRecord::new(0, 0),
            dfa_states: DFAStateTable::new(),
            lalr_states: LALRStateTable::new(),
        }
    }

    /// Every index stored in any table lies in range for its target table,
    /// every symbol and rule sits at the position of its own index, and every
    /// character range `(a, b)` has `a <= b`.
    pub open spec fn wf(&self) -> bool {
        let nsym = self.symbols@.len();
        let nsets = self.charset@.len();
        let nrules = self.productions@.len();
        let ndfa = self.dfa_states@.len();
        let nlalr = self.lalr_states@.len();
        let ngroups = self.groups@.len();
        &&& forall|i: int| 0 <= i < nsym ==> (#[trigger] self.symbols@[i]).index == i
        &&& forall|i: int| 0 <= i < nsets ==> ranges_ordered((#[trigger] self.charset@[i])@)
        &&& forall|i: int| 0 <= i < nrules ==> rule_in_range(#[trigger] self.productions@[i], nsym)
        &&& forall|i: int| 0 <= i < ndfa ==> dfa_state_ok(#[trigger] self.dfa_states@[i], nsym, nsets, ndfa)
        &&& forall|i: int| 0 <= i < nlalr ==> lalr_state_ok(#[trigger] self.lalr_states@[i], nsym, nrules, nlalr)
        &&& forall|i: int| 0 <= i < ngroups ==> group_ok(#[trigger] self.groups@[i], nsym, ngroups)
        &&& (self.initial_states.dfa as int) < ndfa
        &&& (self.initial_states.lalr as int) < nlalr
    }

    /// Decides `wf`.
    pub fn validate(&self) -> (r: bool)
        ensures
            r == self.wf(),
    {
        let nsym = self.symbols.0.len();
        let nsets = self.charset.0.len();
        let nrules = self.productions.0.len();
        let ndfa = self.dfa_states.0.len();
        let nlalr = self.lalr_states.0.len();
        let ngroups = self.groups.0.len();
        let mut i: usize = 0;
        while i < nsym
            invariant
                nsym == self.symbols@.len(),
                0 <= i <= nsym,
                forall|k: int| 0 <= k < i ==> (#[trigger] self.symbols@[k]).index == k,
            decreases nsym - i,
        {
            if self.symbols.0[i].index != i {
                return false;
            }
            i = i + 1;
        }
        let mut i: usize = 0;
        while i < nsets
            invariant
                nsets == self.charset@.len(),
                0 <= i <= nsets,
                forall|k: int| 0 <= k < i ==> ranges_ordered((#[trigger] self.charset@[k])@),
            decreases nsets - i,
        {
            let ranges = &self.charset.0[i].ranges;
            let mut j: usize = 0;
            while j < ranges.len()
                invariant
                    0 <= j <= ranges@.len(),
                    0 <= i < nsets,
                    nsets == self.charset@.len(),
                    ranges@ == self.charset@[i as int]@,
                    forall|m: int| 0 <= m < j ==> (#[trigger] ranges@[m]).0 <= ranges@[m].1,
                decreases ranges@.len() - j,
            {
                if ranges[j].0 > ranges[j].1 {
                    assert(!ranges_ordered(self.charset@[i as int]@));
                    return false;
                }
                j = j + 1;
            }
            i = i + 1;
        }
        let mut i: usize = 0;
        while i < nrules
            invariant
                nrules == self.productions@.len(),
                nsym == self.symbols@.len(),
                0 <= i <= nrules,
                forall|k: int| 0 <= k < i ==> rule_in_range(#[trigger] self.productions@[k], nsym as nat),
            decreases nrules - i,
        {
            let rule = &self.productions.0[i];
            if rule.head >= nsym {
                return false;
            }
            let mut j: usize = 0;
            while j < rule.symbols.len()
                invariant
                    0 <= j <= rule.symbols@.len(),
                    0 <= i < nrules,
                    nrules == self.productions@.len(),
                    *rule == self.productions@[i as int],
                    nsym == self.symbols@.len(),
                    forall|m: int| 0 <= m < j ==> #[trigger] rule.symbols@[m] < nsym,
                decreases rule.symbols@.len() - j,
            {
                if rule.symbols[j] >= nsym {
                    assert(!rule_in_range(self.productions@[i as int], nsym as nat));
                    return false;
                }
                j = j + 1;
            }
            i = i + 1;
        }
        let mut i: usize = 0;
        while i < ndfa
            invariant
                ndfa == self.dfa_states@.len(),
                nsym == self.symbols@.len(),
                nsets == self.charset@.len(),
                0 <= i <= ndfa,
                forall|k: int| 0 <= k < i ==> dfa_state_ok(#[trigger] self.dfa_states@[k], nsym as nat, nsets as nat, ndfa as nat),
            decreases ndfa - i,
        {
            let st = &self.dfa_states.0[i];
            if st.accept && st.accept_symbol >= nsym {
                return false;
            }
            let mut j: usize = 0;
            while j < st.edges.len()
                invariant
                    0 <= j <= st.edges@.len(),
                    0 <= i < ndfa,
                    ndfa == self.dfa_states@.len(),
                    *st == self.dfa_states@[i as int],
                    nsym == self.symbols@.len(),
                    nsets == self.charset@.len(),
                    forall|m: int| 0 <= m < j ==> (#[trigger] st.edges@[m]).chars < nsets && st.edges@[m].target_state < ndfa,
                decreases st.edges@.len() - j,
            {
                if st.edges[j].chars >= nsets || st.edges[j].target_state >= ndfa {
                    assert(!dfa_state_ok(self.dfa_states@[i as int], nsym as nat, nsets as nat, ndfa as nat));
                    return false;
                }
                j = j + 1;
            }
            i = i + 1;
        }
        let mut i: usize = 0;
        while i < nlalr
            invariant
                nlalr == self.lalr_states@.len(),
                nsym == self.symbols@.len(),
                nrules == self.productions@.len(),
                0 <= i <= nlalr,
                forall|k: int| 0 <= k < i ==> lalr_state_ok(#[trigger] self.lalr_states@[k], nsym as nat, nrules as nat, nlalr as nat),
            decreases nlalr - i,
        {
            let st = &self.lalr_states.0[i];
            let mut j: usize = 0;
            while j < st.actions.len()
                invariant
                    0 <= j <= st.actions@.len(),
                    0 <= i < nlalr,
                    nlalr == self.lalr_states@.len(),
                    *st == self.lalr_states@[i as int],
                    nsym == self.symbols@.len(),
                    nrules == self.productions@.len(),
                    forall|m: int| 0 <= m < j ==> action_ok(#[trigger] st.actions@[m], nsym as nat, nrules as nat, nlalr as nat),
                decreases st.actions@.len() - j,
            {
                let a = st.actions[j];
                let bad_target = match a.action {
                    ActionType::Shift | ActionType::Goto => a.target_idx >= nlalr,
                    ActionType::Reduce => a.target_idx >= nrules,
                    _ => false,
                };
                if a.symbol >= nsym || bad_target {
                    assert(!action_ok(st.actions@[j as int], nsym as nat, nrules as nat, nlalr as nat));
                    assert(!lalr_state_ok(self.lalr_states@[i as int], nsym as nat, nrules as nat, nlalr as nat));
                    return false;
                }
                j = j + 1;
            }
            i = i + 1;
        }
        let mut i: usize = 0;
        while i < ngroups
            invariant
                ngroups == self.groups@.len(),
                nsym == self.symbols@.len(),
                0 <= i <= ngroups,
                forall|k: int| 0 <= k < i ==> group_ok(#[trigger] self.groups@[k], nsym as nat, ngroups as nat),
            decreases ngroups - i,
        {
            let g = &self.groups.0[i];
            if g.container_idx >= nsym || g.start_idx >= nsym || g.end_idx >= nsym {
                return false;
            }
            let mut j: usize = 0;
            while j < g.nested.len()
                invariant
                    0 <= j <= g.nested@.len(),
                    0 <= i < ngroups,
                    ngroups == self.groups@.len(),
                    *g == self.groups@[i as int],
                    nsym == self.symbols@.len(),
                    forall|m: int| 0 <= m < j ==> #[trigger] g.nested@[m] < ngroups,
                decreases g.nested@.len() - j,
            {
                if g.nested[j] >= ngroups {
                    assert(!group_ok(self.groups@[i as int], nsym as nat, ngroups as nat));
                    return false;
                }
                j = j + 1;
            }
            i = i + 1;
        }
        (self.initial_states.dfa as usize) < ndfa && (self.initial_states.lalr as usize) < nlalr
    }

    /// The value of the first property named `name`.
    pub fn property(&self, name: &String) -> (r: Option<&String>)
        ensures
            match property_from(self.properties@, name@, 0) {
                Some(i) => r == Some(&self.properties@[i].value),
                None => r.is_none(),
            },
    {
        let mut i: usize = 0;
        while i < self.properties.len()
            invariant
                0 <= i <= self.properties@.len(),
                property_from(self.properties@, name@, 0) == property_from(self.properties@, name@, i as int),
            decreases self.properties@.len() - i,
        {
            if self.properties[i].name == *name {
                return Some(&self.properties[i].value);
            }
            i = i + 1;
        }
        None
    }

    /// The total number of entries over all tables.
    pub fn total_records(&self) -> (r: usize)
        requires
            self.properties@.len() + self.charset@.len() + self.symbols@.len() + self.groups@.len()
                + self.productions@.len() + self.dfa_states@.len() + self.lalr_states@.len() <= usize::MAX,
        ensures
            r == self.properties@.len() + self.charset@.len() + self.symbols@.len() + self.groups@.len()
                + self.productions@.len() + self.dfa_states@.len() + self.lalr_states@.len(),
    {
        self.properties.len() + self.charset.0.len() + self.symbols.0.len() + self.groups.0.len()
            + self.productions.0.len() + self.dfa_states.0.len() + self.lalr_states.0.len()
    }
}

} // verus!
