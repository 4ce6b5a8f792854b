//! Building the grammar tables from decoded records.
//!
//! The table sizes come from the counts record, which must come before any
//! record that fills a table; the other records then fill their tables by
//! explicit index, in any order.  When every record has been applied, every
//! slot must be filled and every stored index must be in range.
use vstd::prelude::*;
use crate::builder::{Builder, EntryValue, LoadError, LogicalRecord, RecordEntry, RecordType, RecordView, decode_file, egt_header, entry_views};
use crate::charset::{CharacterSet, ranges_ordered};
use crate::egt::EnhancedGrammarTable;
use crate::group::{AdvanceMode, EndingMode, LexicalGroup, advance_mode_of_code, ending_mode_of_code};
use crate::production::ProductionRule;
use crate::records::{InitialStatesRecord, PropertyRecord, TableCountsRecord};
use crate::states::{ActionType, DFAEdge, DFAState, LALRAction, LALRState, action_type_of_code};
use crate::symbol::{Symbol, SymbolType, symbol_type_of_code};
use crate::tables::{CharacterSetTable, DFAStateTable, GroupTable, LALRStateTable, ProductionTable, SymbolTable};

verus! {

/// What a group record holds.
pub struct GroupModel {
    pub name: Seq<char>,
    pub container: usize,
    pub start: usize,
    pub end: usize,
    pub advance: AdvanceMode,
    pub ending: EndingMode,
    pub nested: Seq<usize>,
}

/// The tables while records are being applied; `None` marks a slot that no
/// record has filled yet.
pub struct TablesModel {
    pub props: Seq<(usize, Seq<char>, Seq<char>)>,
    pub counts: TableCountsRecord,
    pub charsets: Seq<Option<Seq<(u32, u32)>>>,
    pub symbols: Seq<Option<(Seq<char>, SymbolType)>>,
    pub groups: Seq<Option<GroupModel>>,
    pub rules: Seq<Option<(usize, Seq<usize>)>>,
    pub init: InitialStatesRecord,
    pub dfa: Seq<Option<(bool, usize, Seq<DFAEdge>)>>,
    pub lalr: Seq<Option<Seq<LALRAction>>>,
}

/// The integer entry at `i`.
pub open spec fn int_at(es: Seq<EntryValue>, i: int) -> Option<u16> {
    if 0 <= i < es.len() {
        match es[i] {
            EntryValue::Integer(v) => Some(v),
            _ => None,
        }
    } else {
        None
    }
}

/// The string entry at `i`.
pub open spec fn text_at(es: Seq<EntryValue>, i: int) -> Option<Seq<char>> {
    if 0 <= i < es.len() {
        match es[i] {
            EntryValue::Text(t) => Some(t),
            _ => None,
        }
    } else {
        None
    }
}

/// The boolean entry at `i`.
pub open spec fn bool_at(es: Seq<EntryValue>, i: int) -> Option<bool> {
    if 0 <= i < es.len() {
        match es[i] {
            EntryValue::Bool(v) => Some(v),
            _ => None,
        }
    } else {
        None
    }
}

/// Whether the entry at `i` is an empty entry.
pub open spec fn empty_at(es: Seq<EntryValue>, i: int) -> bool {
    0 <= i < es.len() && es[i] is Empty
}

/// `k` integer entries from `start` on.
pub open spec fn ints(es: Seq<EntryValue>, start: int, k: nat) -> Option<Seq<usize>>
    decreases k,
{
    if k == 0 {
        Some(Seq::empty())
    } else {
        match (ints(es, start, (k - 1) as nat), int_at(es, start + k - 1)) {
            (Some(prev), Some(v)) => Some(prev.push(v as usize)),
            _ => None,
        }
    }
}

/// The code point of the 16-bit value `v` in Unicode plane `plane`.
pub open spec fn code_point(plane: u16, v: u16) -> u32 {
    (plane as int * 0x10000 + v as int) as u32
}

/// `k` character ranges, two integer entries each, from `start` on; each
/// entry is a 16-bit value within Unicode plane `plane`.
pub open spec fn range_pairs(es: Seq<EntryValue>, start: int, k: nat, plane: u16) -> Option<Seq<(u32, u32)>>
    decreases k,
{
    if k == 0 {
        Some(Seq::empty())
    } else {
        let at = start + 2 * (k - 1);
        match (range_pairs(es, start, (k - 1) as nat, plane), int_at(es, at), int_at(es, at + 1)) {
            (Some(prev), Some(a), Some(b)) => Some(prev.push((code_point(plane, a), code_point(plane, b)))),
            _ => None,
        }
    }
}

/// `k` DFA edges (character set, target, empty) from `start` on.
pub open spec fn edge_triples(es: Seq<EntryValue>, start: int, k: nat) -> Option<Seq<DFAEdge>>
    decreases k,
{
    if k == 0 {
        Some(Seq::empty())
    } else {
        let at = start + 3 * (k - 1);
        match (edge_triples(es, start, (k - 1) as nat), int_at(es, at), int_at(es, at + 1)) {
            (Some(prev), Some(c), Some(t)) => if empty_at(es, at + 2) {
                Some(prev.push(DFAEdge { chars: c as usize, target_state: t as usize }))
            } else {
                None
            },
            _ => None,
        }
    }
}

/// `k` LALR actions (symbol, kind, target, empty) from `start` on.
pub open spec fn action_quads(es: Seq<EntryValue>, start: int, k: nat) -> Result<Seq<LALRAction>, LoadError>
    decreases k,
{
    if k == 0 {
        Ok(Seq::empty())
    } else {
        let at = start + 4 * (k - 1);
        match action_quads(es, start, (k - 1) as nat) {
            Err(e) => Err(e),
            Ok(prev) => match (int_at(es, at), int_at(es, at + 1), int_at(es, at + 2)) {
                (Some(s), Some(a), Some(t)) => if !empty_at(es, at + 3) {
                    Err(LoadError::BadEntry)
                } else {
                    match action_type_of_code(a) {
                        Some(kind) => Ok(prev.push(LALRAction { symbol: s as usize, action: kind, target_idx: t as usize })),
                        None => Err(LoadError::BadActionType),
                    }
                },
                _ => Err(LoadError::BadEntry),
            },
        }
    }
}

/// The tables before any record.
pub open spec fn empty_model() -> TablesModel {
    TablesModel {
        props: Seq::empty(),
        counts: TableCountsRecord { symtab: 0, charset: 0, rules: 0, dfatab: 0, lalrtab: 0, lexgroups: 0 },
        charsets: Seq::empty(),
        symbols: Seq::empty(),
        groups: Seq::empty(),
        rules: Seq::empty(),
        init: InitialStatesRecord { dfa: 0, lalr: 0 },
        dfa: Seq::empty(),
        lalr: Seq::empty(),
    }
}

/// The effect of one record on the tables.
pub open spec fn apply_record(m: TablesModel, r: RecordView) -> Result<TablesModel, LoadError> {
    let es = r.entries;
    match r.kind {
        RecordType::Property => match (int_at(es, 0), text_at(es, 1), text_at(es, 2)) {
            (Some(i), Some(n), Some(v)) => if es.len() == 3 {
                Ok(TablesModel { props: m.props.push((i as usize, n, v)), ..m })
            } else {
                Err(LoadError::BadEntry)
            },
            _ => Err(LoadError::BadEntry),
        },
        RecordType::Counts => match (int_at(es, 0), int_at(es, 1), int_at(es, 2), int_at(es, 3), int_at(es, 4), int_at(es, 5)) {
            (Some(s), Some(c), Some(ru), Some(d), Some(l), Some(g)) => if es.len() == 6 {
                Ok(TablesModel {
                    counts: TableCountsRecord { symtab: s, charset: c, rules: ru, dfatab: d, lalrtab: l, lexgroups: g },
                    charsets: Seq::new(c as nat, |i: int| None),
                    symbols: Seq::new(s as nat, |i: int| None),
                    groups: Seq::new(g as nat, |i: int| None),
                    rules: Seq::new(ru as nat, |i: int| None),
                    dfa: Seq::new(d as nat, |i: int| None),
                    lalr: Seq::new(l as nat, |i: int| None),
                    ..m
                })
            } else {
                Err(LoadError::BadEntry)
            },
            _ => Err(LoadError::BadEntry),
        },
        RecordType::CharSet => match (int_at(es, 0), int_at(es, 1), int_at(es, 2)) {
            (Some(i), Some(plane), Some(n)) => if !empty_at(es, 3) || es.len() != 4 + 2 * n {
                Err(LoadError::BadEntry)
            } else {
                match range_pairs(es, 4, n as nat, plane) {
                    None => Err(LoadError::BadEntry),
                    Some(rs) => if i as int >= m.charsets.len() {
                        Err(LoadError::IndexOutOfRange)
                    } else if !ranges_ordered(rs) {
                        Err(LoadError::BadRange)
                    } else {
                        Ok(TablesModel { charsets: m.charsets.update(i as int, Some(rs)), ..m })
                    },
                }
            },
            _ => Err(LoadError::BadEntry),
        },
        RecordType::Symbol => match (int_at(es, 0), text_at(es, 1), int_at(es, 2)) {
            (Some(i), Some(n), Some(k)) => if es.len() != 3 {
                Err(LoadError::BadEntry)
            } else if i as int >= m.symbols.len() {
                Err(LoadError::IndexOutOfRange)
            } else {
                match symbol_type_of_code(k) {
                    None => Err(LoadError::BadSymbolKind),
                    Some(kind) => Ok(TablesModel { symbols: m.symbols.update(i as int, Some((n, kind))), ..m }),
                }
            },
            _ => Err(LoadError::BadEntry),
        },
        RecordType::Group => match (int_at(es, 0), text_at(es, 1), int_at(es, 2), int_at(es, 3), int_at(es, 4), int_at(es, 5), int_at(es, 6), int_at(es, 8)) {
            (Some(i), Some(n), Some(c), Some(s), Some(e), Some(a), Some(en), Some(k)) => if !empty_at(es, 7) || es.len() != 9 + k {
                Err(LoadError::BadEntry)
            } else {
                match (ints(es, 9, k as nat), advance_mode_of_code(a), ending_mode_of_code(en)) {
                    (Some(nested), Some(adv), Some(ending)) => if i as int >= m.groups.len() {
                        Err(LoadError::IndexOutOfRange)
                    } else {
                        Ok(TablesModel {
                            groups: m.groups.update(i as int, Some(GroupModel {
                                name: n,
                                container: c as usize,
                                start: s as usize,
                                end: e as usize,
                                advance: adv,
                                ending,
                                nested,
                            })),
                            ..m
                        })
                    },
                    _ => Err(LoadError::BadEntry),
                }
            },
            _ => Err(LoadError::BadEntry),
        },
        RecordType::Production => match (int_at(es, 0), int_at(es, 1)) {
            (Some(i), Some(h)) => if !empty_at(es, 2) {
                Err(LoadError::BadEntry)
            } else {
                match ints(es, 3, (es.len() - 3) as nat) {
                    None => Err(LoadError::BadEntry),
                    Some(body) => if i as int >= m.rules.len() {
                        Err(LoadError::IndexOutOfRange)
                    } else {
                        Ok(TablesModel { rules: m.rules.update(i as int, Some((h as usize, body))), ..m })
                    },
                }
            },
            _ => Err(LoadError::BadEntry),
        },
        RecordType::InitState => match (int_at(es, 0), int_at(es, 1)) {
            (Some(d), Some(l)) => if es.len() == 2 {
                Ok(TablesModel { init: InitialStatesRecord { dfa: d, lalr: l }, ..m })
            } else {
                Err(LoadError::BadEntry)
            },
            _ => Err(LoadError::BadEntry),
        },
        RecordType::DFA => match (int_at(es, 0), bool_at(es, 1), int_at(es, 2)) {
            (Some(i), Some(acc), Some(s)) => if !empty_at(es, 3) || (es.len() - 4) % 3 != 0 {
                Err(LoadError::BadEntry)
            } else {
                match edge_triples(es, 4, ((es.len() - 4) / 3) as nat) {
                    None => Err(LoadError::BadEntry),
                    Some(edges) => if i as int >= m.dfa.len() {
                        Err(LoadError::IndexOutOfRange)
                    } else {
                        Ok(TablesModel { dfa: m.dfa.update(i as int, Some((acc, s as usize, edges))), ..m })
                    },
                }
            },
            _ => Err(LoadError::BadEntry),
        },
        RecordType::LALR => match int_at(es, 0) {
            Some(i) => if !empty_at(es, 1) || (es.len() - 2) % 4 != 0 {
                Err(LoadError::BadEntry)
            } else {
                match action_quads(es, 2, ((es.len() - 2) / 4) as nat) {
                    Err(e) => Err(e),
                    Ok(actions) => if i as int >= m.lalr.len() {
                        Err(LoadError::IndexOutOfRange)
                    } else {
                        Ok(TablesModel { lalr: m.lalr.update(i as int, Some(actions)), ..m })
                    },
                }
            },
            None => Err(LoadError::BadEntry),
        },
    }
}

/// The tables after applying the records in order.
pub open spec fn assemble(rs: Seq<RecordView>) -> Result<TablesModel, LoadError>
    decreases rs.len(),
{
    if rs.len() == 0 {
        Ok(empty_model())
    } else {
        match assemble(rs.drop_last()) {
            Err(e) => Err(e),
            Ok(m) => apply_record(m, rs.last()),
        }
    }
}

/// Whether every slot of every table has been filled.
pub open spec fn complete(m: TablesModel) -> bool {
    &&& forall|i: int| 0 <= i < m.charsets.len() ==> (#[trigger] m.charsets[i]).is_some()
    &&& forall|i: int| 0 <= i < m.symbols.len() ==> (#[trigger] m.symbols[i]).is_some()
    &&& forall|i: int| 0 <= i < m.groups.len() ==> (#[trigger] m.groups[i]).is_some()
    &&& forall|i: int| 0 <= i < m.rules.len() ==> (#[trigger] m.rules[i]).is_some()
    &&& forall|i: int| 0 <= i < m.dfa.len() ==> (#[trigger] m.dfa[i]).is_some()
    &&& forall|i: int| 0 <= i < m.lalr.len() ==> (#[trigger] m.lalr[i]).is_some()
}

/// Whether grammar `g` holds exactly the filled tables `m`.
pub open spec fn grammar_matches(g: EnhancedGrammarTable, m: TablesModel) -> bool {
    &&& g.header@ == egt_header()
    &&& g.counts == m.counts
    &&& g.initial_states == m.init
    &&& g.properties@.len() == m.props.len()
    &&& forall|i: int| 0 <= i < m.props.len() ==> (#[trigger] g.properties@[i]).index == m.props[i].0
        && g.properties@[i].name@ == m.props[i].1 && g.properties@[i].value@ == m.props[i].2
    &&& g.charset@.len() == m.charsets.len()
    &&& forall|i: int| 0 <= i < m.charsets.len() ==> (#[trigger] g.charset@[i])@ == m.charsets[i].unwrap()
    &&& g.symbols@.len() == m.symbols.len()
    &&& forall|i: int| 0 <= i < m.symbols.len() ==> (#[trigger] g.symbols@[i]).index == i
        && g.symbols@[i].name@ == m.symbols[i].unwrap().0 && g.symbols@[i].kind == m.symbols[i].unwrap().1
    &&& g.groups@.len() == m.groups.len()
    &&& forall|i: int| 0 <= i < m.groups.len() ==> {
        let gr = #[trigger] g.groups@[i];
        let gm = m.groups[i].unwrap();
        &&& gr.index == i
        &&& gr.name@ == gm.name
        &&& gr.container_idx == gm.container
        &&& gr.start_idx == gm.start
        &&& gr.end_idx == gm.end
        &&& gr.advance_mode == gm.advance
        &&& gr.ending_mode == gm.ending
        &&& gr.nested@ == gm.nested
    }
    &&& g.productions@.len() == m.rules.len()
    &&& forall|i: int| 0 <= i < m.rules.len() ==> (#[trigger] g.productions@[i]).index == i
        && g.productions@[i].head == m.rules[i].unwrap().0 && g.productions@[i].symbols@ == m.rules[i].unwrap().1
    &&& g.dfa_states@.len() == m.dfa.len()
    &&& forall|i: int| 0 <= i < m.dfa.len() ==> (#[trigger] g.dfa_states@[i]).index == i
        && g.dfa_states@[i].accept == m.dfa[i].unwrap().0 && g.dfa_states@[i].accept_symbol == m.dfa[i].unwrap().1
        && g.dfa_states@[i].edges@ == m.dfa[i].unwrap().2
    &&& g.lalr_states@.len() == m.lalr.len()
    &&& forall|i: int| 0 <= i < m.lalr.len() ==> (#[trigger] g.lalr_states@[i]).index == i
        && g.lalr_states@[i].actions@ == m.lalr[i].unwrap()
}

/// The outcome of loading a table file: the decoded records applied in
/// order, every slot filled, every index in range.
pub open spec fn load_outcome(b: Seq<u8>, r: Result<EnhancedGrammarTable, LoadError>) -> bool {
    match decode_file(b) {
        Err(e) => r == Err::<EnhancedGrammarTable, LoadError>(e),
        Ok(rs) => match assemble(rs) {
            Err(e) => r == Err::<EnhancedGrammarTable, LoadError>(e),
            Ok(m) => if !complete(m) {
                r == Err::<EnhancedGrammarTable, LoadError>(LoadError::CountMismatch)
            } else {
                match r {
                    Ok(g) => grammar_matches(g, m) && g.wf(),
                    Err(e) => e == LoadError::IndexOutOfRange && exists|g: EnhancedGrammarTable| grammar_matches(g, m) && !g.wf(),
                }
            },
        },
    }
}


proof fn lemma_ints_none(es: Seq<EntryValue>, start: int, j: nat, k: nat)
    requires
        j <= k,
        ints(es, start, j).is_none(),
    ensures
        ints(es, start, k).is_none(),
    decreases k,
{
    if k > j {
        lemma_ints_none(es, start, j, (k - 1) as nat);
    }
}

proof fn lemma_pairs_none(es: Seq<EntryValue>, start: int, j: nat, k: nat, plane: u16)
    requires
        j <= k,
        range_pairs(es, start, j, plane).is_none(),
    ensures
        range_pairs(es, start, k, plane).is_none(),
    decreases k,
{
    if k > j {
        lemma_pairs_none(es, start, j, (k - 1) as nat, plane);
    }
}

proof fn lemma_edges_none(es: Seq<EntryValue>, start: int, j: nat, k: nat)
    requires
        j <= k,
        edge_triples(es, start, j).is_none(),
    ensures
        edge_triples(es, start, k).is_none(),
    decreases k,
{
    if k > j {
        lemma_edges_none(es, start, j, (k - 1) as nat);
    }
}

proof fn lemma_quads_err(es: Seq<EntryValue>, start: int, j: nat, k: nat)
    requires
        j <= k,
        action_quads(es, start, j).is_err(),
    ensures
        action_quads(es, start, k) == action_quads(es, start, j),
    decreases k,
{
    if k > j {
        lemma_quads_err(es, start, j, (k - 1) as nat);
    }
}

proof fn lemma_assemble_err(rs: Seq<RecordView>, j: int)
    requires
        0 <= j <= rs.len(),
        assemble(rs.subrange(0, j)).is_err(),
    ensures
        assemble(rs) == assemble(rs.subrange(0, j)),
    decreases rs.len() - j,
{
    if j < rs.len() {
        assert(rs.subrange(0, j + 1).drop_last() =~= rs.subrange(0, j));
        lemma_assemble_err(rs, j + 1);
    } else {
        assert(rs.subrange(0, j) =~= rs);
    }
}

fn get_int(es: &Vec<RecordEntry>, i: usize) -> (r: Option<u16>)
    ensures
        r == int_at(entry_views(es@), i as int),
{
    if i < es.len() {
        match &es[i] {
            RecordEntry::Integer(v) => Some(*v),
            _ => None,
        }
    } else {
        None
    }
}

fn get_text(es: &Vec<RecordEntry>, i: usize) -> (r: Option<String>)
    ensures
        r.is_some() == text_at(entry_views(es@), i as int).is_some(),
        r.is_some() ==> r.unwrap()@ == text_at(entry_views(es@), i as int).unwrap(),
{
    if i < es.len() {
        match &es[i] {
            RecordEntry::String(t) => Some(t.clone()),
            _ => None,
        }
    } else {
        None
    }
}

fn get_bool(es: &Vec<RecordEntry>, i: usize) -> (r: Option<bool>)
    ensures
        r == bool_at(entry_views(es@), i as int),
{
    if i < es.len() {
        match &es[i] {
            RecordEntry::Bool(v) => Some(*v),
            _ => None,
        }
    } else {
        None
    }
}

fn is_empty_entry(es: &Vec<RecordEntry>, i: usize) -> (r: bool)
    ensures
        r == empty_at(entry_views(es@), i as int),
{
    if i < es.len() {
        match &es[i] {
            RecordEntry::Empty => true,
            _ => false,
        }
    } else {
        false
    }
}

fn read_ints(es: &Vec<RecordEntry>, start: usize, k: usize) -> (r: Option<Vec<usize>>)
    requires
        start + k <= es@.len(),
    ensures
        match ints(entry_views(es@), start as int, k as nat) {
            Some(v) => r.is_some() && r.unwrap()@ == v,
            None => r.is_none(),
        },
{
    let ghost ev = entry_views(es@);
    let mut out: Vec<usize> = Vec::new();
    let total = es.len();
    let mut i: usize = 0;
    while i < k
        invariant
            total == es@.len(),
            start + k <= es@.len(),
            ev == entry_views(es@),
            0 <= i <= k,
            ints(ev, start as int, i as nat) == Some(out@),
        decreases k - i,
    {
        match get_int(es, start + i) {
            Some(v) => {
                out.push(v as usize);
            },
            None => {
                proof {
                    lemma_ints_none(ev, start as int, (i + 1) as nat, k as nat);
                }
                return None;
            },
        }
        i = i + 1;
    }
    Some(out)
}

fn read_ranges(es: &Vec<RecordEntry>, start: usize, k: usize, plane: u16) -> (r: Option<Vec<(u32, u32)>>)
    requires
        start + 2 * k <= es@.len(),
    ensures
        match range_pairs(entry_views(es@), start as int, k as nat, plane) {
            Some(v) => r.is_some() && r.unwrap()@ == v,
            None => r.is_none(),
        },
{
    let ghost ev = entry_views(es@);
    let mut out: Vec<(u32, u32)> = Vec::new();
    let total = es.len();
    let mut i: usize = 0;
    while i < k
        invariant
            total == es@.len(),
            start + 2 * k <= es@.len(),
            ev == entry_views(es@),
            0 <= i <= k,
            range_pairs(ev, start as int, i as nat, plane) == Some(out@),
        decreases k - i,
    {
        let at = start + 2 * i;
        match (get_int(es, at), get_int(es, at + 1)) {
            (Some(a), Some(b)) => {
                let base = (plane as u32) * 0x10000;
                out.push((base + a as u32, base + b as u32));
            },
            _ => {
                proof {
                    lemma_pairs_none(ev, start as int, (i + 1) as nat, k as nat, plane);
                }
                return None;
            },
        }
        i = i + 1;
    }
    Some(out)
}

fn read_edges(es: &Vec<RecordEntry>, start: usize, k: usize) -> (r: Option<Vec<DFAEdge>>)
    requires
        start + 3 * k <= es@.len(),
    ensures
        match edge_triples(entry_views(es@), start as int, k as nat) {
            Some(v) => r.is_some() && r.unwrap()@ == v,
            None => r.is_none(),
        },
{
    let ghost ev = entry_views(es@);
    let mut out: Vec<DFAEdge> = Vec::new();
    let total = es.len();
    let mut i: usize = 0;
    while i < k
        invariant
            total == es@.len(),
            start + 3 * k <= es@.len(),
            ev == entry_views(es@),
            0 <= i <= k,
            edge_triples(ev, start as int, i as nat) == Some(out@),
        decreases k - i,
    {
        let at = start + 3 * i;
        match (get_int(es, at), get_int(es, at + 1)) {
            (Some(c), Some(t)) => {
                if is_empty_entry(es, at + 2) {
                    out.push(DFAEdge { chars: c as usize, target_state: t as usize });
                } else {
                    proof {
                        lemma_edges_none(ev, start as int, (i + 1) as nat, k as nat);
                    }
                    return None;
                }
            },
            _ => {
                proof {
                    lemma_edges_none(ev, start as int, (i + 1) as nat, k as nat);
                }
                return None;
            },
        }
        i = i + 1;
    }
    Some(out)
}

fn read_actions(es: &Vec<RecordEntry>, start: usize, k: usize) -> (r: Result<Vec<LALRAction>, LoadError>)
    requires
        start + 4 * k <= es@.len(),
    ensures
        match action_quads(entry_views(es@), start as int, k as nat) {
            Ok(v) => r.is_ok() && r.unwrap()@ == v,
            Err(e) => r.is_err() && r.unwrap_err() == e,
        },
{
    let ghost ev = entry_views(es@);
    let mut out: Vec<LALRAction> = Vec::new();
    let total = es.len();
    let mut i: usize = 0;
    while i < k
        invariant
            total == es@.len(),
            start + 4 * k <= es@.len(),
            ev == entry_views(es@),
            0 <= i <= k,
            action_quads(ev, start as int, i as nat) == Ok::<Seq<LALRAction>, LoadError>(out@),
        decreases k - i,
    {
        let at = start + 4 * i;
        match (get_int(es, at), get_int(es, at + 1), get_int(es, at + 2)) {
            (Some(sy), Some(a), Some(t)) => {
                if !is_empty_entry(es, at + 3) {
                    proof {
                        lemma_quads_err(ev, start as int, (i + 1) as nat, k as nat);
                    }
                    return Err(LoadError::BadEntry);
                }
                match ActionType::from_u16(a) {
                    Some(kind) => {
                        out.push(LALRAction { symbol: sy as usize, action: kind, target_idx: t as usize });
                    },
                    None => {
                        proof {
                            lemma_quads_err(ev, start as int, (i + 1) as nat, k as nat);
                        }
                        return Err(LoadError::BadActionType);
                    },
                }
            },
            _ => {
                proof {
                    lemma_quads_err(ev, start as int, (i + 1) as nat, k as nat);
                }
                return Err(LoadError::BadEntry);
            },
        }
        i = i + 1;
    }
    Ok(out)
}

/// `n` empty slots.
fn nones<T>(n: usize) -> (r: Vec<Option<T>>)
    ensures
        r@.len() == n,
        forall|i: int| 0 <= i < n ==> (#[trigger] r@[i]).is_none(),
{
    let mut v: Vec<Option<T>> = Vec::new();
    while v.len() < n
        invariant
            v@.len() <= n,
            forall|i: int| 0 <= i < v@.len() ==> (#[trigger] v@[i]).is_none(),
        decreases n - v@.len(),
    {
        v.push(None);
    }
    v
}

/// The contents of every slot, or `None` where one is empty.
fn unwrap_all<T>(v: Vec<Option<T>>) -> (r: Option<Vec<T>>)
    ensures
        r.is_some() == forall|i: int| 0 <= i < v@.len() ==> (#[trigger] v@[i]).is_some(),
        r.is_some() ==> r.unwrap()@.len() == v@.len() && forall|i: int| 0 <= i < v@.len() ==> (#[trigger] r.unwrap()@[i]) == v@[i].unwrap(),
{
    let ghost orig = v@;
    let n = v.len();
    let mut work = v;
    let mut rev: Vec<T> = Vec::new();
    while work.len() > 0
        invariant
            orig == v@,
            orig.len() == n,
            work@.len() <= n,
            work@ == orig.subrange(0, work@.len() as int),
            rev@.len() == n - work@.len(),
            forall|j: int| 0 <= j < rev@.len() ==> (#[trigger] orig[n - 1 - j]) is Some && rev@[j] == orig[n - 1 - j].unwrap(),
        decreases work@.len(),
    {
        let ghost before = work@;
        let ghost k = work@.len() - 1;
        assert(before[k] == orig[k]);
        match work.pop().unwrap() {
            Some(x) => {
                rev.push(x);
                assert(n - 1 - (rev@.len() - 1) == k);
                assert forall|j: int| 0 <= j < rev@.len() implies (#[trigger] orig[n - 1 - j]) is Some && rev@[j] == orig[n - 1 - j].unwrap() by {
                    if j == rev@.len() - 1 {
                        assert(orig[n - 1 - j] == orig[k]);
                    }
                }
            },
            None => {
                assert(v@[k] is None);
                return None;
            },
        }
        assert(work@ =~= orig.subrange(0, work@.len() as int));
    }
    let mut out: Vec<T> = Vec::new();
    while rev.len() > 0
        invariant
            orig == v@,
            orig.len() == n,
            rev@.len() + out@.len() == n,
            forall|j: int| 0 <= j < rev@.len() ==> (#[trigger] orig[n - 1 - j]) is Some && rev@[j] == orig[n - 1 - j].unwrap(),
            forall|j: int| 0 <= j < out@.len() ==> (#[trigger] orig[j]) is Some && out@[j] == orig[j].unwrap(),
        decreases rev@.len(),
    {
        let ghost m = rev@.len() - 1;
        assert(orig[n - 1 - m] is Some && rev@[m] == orig[n - 1 - m].unwrap());
        let x = rev.pop().unwrap();
        out.push(x);
        assert forall|j: int| 0 <= j < out@.len() implies (#[trigger] orig[j]) is Some && out@[j] == orig[j].unwrap() by {
            if j == out@.len() - 1 {
                assert(n - 1 - m == j);
            }
        }
    }
    assert forall|i: int| 0 <= i < v@.len() implies (#[trigger] v@[i]).is_some() by {
        assert(orig[i] is Some);
    }
    Some(out)
}


pub open spec fn charset_slot(o: Option<CharacterSet>) -> Option<Seq<(u32, u32)>> {
    match o {
        Some(c) => Some(c@),
        None => None,
    }
}

pub open spec fn symbol_slot(o: Option<Symbol>) -> Option<(Seq<char>, SymbolType)> {
    match o {
        Some(s) => Some((s.name@, s.kind)),
        None => None,
    }
}

pub open spec fn group_slot(o: Option<LexicalGroup>) -> Option<GroupModel> {
    match o {
        Some(g) => Some(GroupModel {
            name: g.name@,
            container: g.container_idx,
            start: g.start_idx,
            end: g.end_idx,
            advance: g.advance_mode,
            ending: g.ending_mode,
            nested: g.nested@,
        }),
        None => None,
    }
}

pub open spec fn rule_slot(o: Option<ProductionRule>) -> Option<(usize, Seq<usize>)> {
    match o {
        Some(r) => Some((r.head, r.symbols@)),
        None => None,
    }
}

pub open spec fn dfa_slot(o: Option<DFAState>) -> Option<(bool, usize, Seq<DFAEdge>)> {
    match o {
        Some(d) => Some((d.accept, d.accept_symbol, d.edges@)),
        None => None,
    }
}

pub open spec fn lalr_slot(o: Option<LALRState>) -> Option<Seq<LALRAction>> {
    match o {
        Some(l) => Some(l.actions@),
        None => None,
    }
}

pub open spec fn prop_item(p: PropertyRecord) -> (usize, Seq<char>, Seq<char>) {
    (p.index, p.name@, p.value@)
}

/// The tables while records are applied.
struct Assembly {
    props: Vec<PropertyRecord>,
    counts: TableCountsRecord,
    charsets: Vec<Option<CharacterSet>>,
    symbols: Vec<Option<Symbol>>,
    groups: Vec<Option<LexicalGroup>>,
    rules: Vec<Option<ProductionRule>>,
    init: InitialStatesRecord,
    dfa: Vec<Option<DFAState>>,
    lalr: Vec<Option<LALRState>>,
}

impl View for Assembly {
    type V = TablesModel;

    closed spec fn view(&self) -> TablesModel {
        TablesModel {
            props: self.props@.map_values(|p: PropertyRecord| prop_item(p)),
            counts: self.counts,
            charsets: self.charsets@.map_values(|o: Option<CharacterSet>| charset_slot(o)),
            symbols: self.symbols@.map_values(|o: Option<Symbol>| symbol_slot(o)),
            groups: self.groups@.map_values(|o: Option<LexicalGroup>| group_slot(o)),
            rules: self.rules@.map_values(|o: Option<ProductionRule>| rule_slot(o)),
            init: self.init,
            dfa: self.dfa@.map_values(|o: Option<DFAState>| dfa_slot(o)),
            lalr: self.lalr@.map_values(|o: Option<LALRState>| lalr_slot(o)),
        }
    }
}

fn ordered(v: &Vec<(u32, u32)>) -> (r: bool)
    ensures
        r == ranges_ordered(v@),
{
    let mut i: usize = 0;
    while i < v.len()
        invariant
            0 <= i <= v@.len(),
            forall|j: int| 0 <= j < i ==> (#[trigger] v@[j]).0 <= v@[j].1,
        decreases v@.len() - i,
    {
        if v[i].0 > v[i].1 {
            return false;
        }
        i = i + 1;
    }
    true
}

impl Assembly {
    /// Every filled slot holds an entry whose own index is the slot's.
    spec fn indexed(&self) -> bool {
        &&& forall|i: int| 0 <= i < self.symbols@.len() && (#[trigger] self.symbols@[i]) is Some ==> self.symbols@[i].unwrap().index == i
        &&& forall|i: int| 0 <= i < self.groups@.len() && (#[trigger] self.groups@[i]) is Some ==> self.groups@[i].unwrap().index == i
        &&& forall|i: int| 0 <= i < self.rules@.len() && (#[trigger] self.rules@[i]) is Some ==> self.rules@[i].unwrap().index == i
        &&& forall|i: int| 0 <= i < self.dfa@.len() && (#[trigger] self.dfa@[i]) is Some ==> self.dfa@[i].unwrap().index == i
        &&& forall|i: int| 0 <= i < self.lalr@.len() && (#[trigger] self.lalr@[i]) is Some ==> self.lalr@[i].unwrap().index == i
    }

    fn new() -> (r: Assembly)
        ensures
            r@ == empty_model(),
            r.indexed(),
    {
        let r = Assembly {
            props: Vec::new(),
            counts: TableCountsRecord::zero(),
            charsets: Vec::new(),
            symbols: Vec::new(),
            groups: Vec::new(),
            rules: Vec::new(),
            init: InitialStatesRecord::new(0, 0),
            dfa: Vec::new(),
            lalr: Vec::new(),
        };
        assert(r@.props =~= empty_model().props);
        assert(r@.charsets =~= empty_model().charsets);
        assert(r@.symbols =~= empty_model().symbols);
        assert(r@.groups =~= empty_model().groups);
        assert(r@.rules =~= empty_model().rules);
        assert(r@.dfa =~= empty_model().dfa);
        assert(r@.lalr =~= empty_model().lalr);
        r
    }

    fn apply_property(&mut self, es: &Vec<RecordEntry>) -> (r: Result<(), LoadError>)
        requires
            old(self).indexed(),
        ensures
            final(self).indexed(),
            match apply_record(old(self)@, RecordView { kind: RecordType::Property, entries: entry_views(es@) }) {
                Ok(m) => r.is_ok() && final(self)@ == m,
                Err(e) => r.is_err() && r.unwrap_err() == e,
            },
    {
        match (get_int(es, 0), get_text(es, 1), get_text(es, 2)) {
            (Some(i), Some(n), Some(v)) => {
                if es.len() == 3 {
                    let ghost item = (i as usize, n@, v@);
                    self.props.push(PropertyRecord::new(i as usize, n, v));
                    assert(self@.props =~= old(self)@.props.push(item));
                    Ok(())
                } else {
                    Err(LoadError::BadEntry)
                }
            },
            _ => Err(LoadError::BadEntry),
        }
    }

    fn apply_counts(&mut self, es: &Vec<RecordEntry>) -> (r: Result<(), LoadError>)
        requires
            old(self).indexed(),
        ensures
            final(self).indexed(),
            match apply_record(old(self)@, RecordView { kind: RecordType::Counts, entries: entry_views(es@) }) {
                Ok(m) => r.is_ok() && final(self)@ == m,
                Err(e) => r.is_err() && r.unwrap_err() == e,
            },
    {
        match (get_int(es, 0), get_int(es, 1), get_int(es, 2), get_int(es, 3), get_int(es, 4), get_int(es, 5)) {
            (Some(s), Some(c), Some(ru), Some(d), Some(l), Some(g)) => {
                if es.len() != 6 {
                    return Err(LoadError::BadEntry);
                }
                self.counts = TableCountsRecord::new(s, c, ru, d, l, g);
                self.charsets = nones(c as usize);
                self.symbols = nones(s as usize);
                self.groups = nones(g as usize);
                self.rules = nones(ru as usize);
                self.dfa = nones(d as usize);
                self.lalr = nones(l as usize);
                assert(self@.charsets =~= Seq::new(c as nat, |i: int| None));
                assert(self@.symbols =~= Seq::new(s as nat, |i: int| None));
                assert(self@.groups =~= Seq::new(g as nat, |i: int| None));
                assert(self@.rules =~= Seq::new(ru as nat, |i: int| None));
                assert(self@.dfa =~= Seq::new(d as nat, |i: int| None));
                assert(self@.lalr =~= Seq::new(l as nat, |i: int| None));
                Ok(())
            },
            _ => Err(LoadError::BadEntry),
        }
    }

    fn apply_charset(&mut self, es: &Vec<RecordEntry>) -> (r: Result<(), LoadError>)
        requires
            old(self).indexed(),
        ensures
            final(self).indexed(),
            match apply_record(old(self)@, RecordView { kind: RecordType::CharSet, entries: entry_views(es@) }) {
                Ok(m) => r.is_ok() && final(self)@ == m,
                Err(e) => r.is_err() && r.unwrap_err() == e,
            },
    {
        match (get_int(es, 0), get_int(es, 1), get_int(es, 2)) {
            (Some(i), Some(plane), Some(n)) => {
                if !is_empty_entry(es, 3) || es.len() != 4 + 2 * (n as usize) {
                    return Err(LoadError::BadEntry);
                }
                let ranges = match read_ranges(es, 4, n as usize, plane) {
                    Some(v) => v,
                    None => {
                        return Err(LoadError::BadEntry);
                    },
                };
                if i as usize >= self.charsets.len() {
                    return Err(LoadError::IndexOutOfRange);
                }
                if !ordered(&ranges) {
                    return Err(LoadError::BadRange);
                }
                let ghost rs = ranges@;
                self.charsets.set(i as usize, Some(CharacterSet::new(ranges)));
                assert(self@.charsets =~= old(self)@.charsets.update(i as int, Some(rs)));
                Ok(())
            },
            _ => Err(LoadError::BadEntry),
        }
    }

    fn apply_symbol(&mut self, es: &Vec<RecordEntry>) -> (r: Result<(), LoadError>)
        requires
            old(self).indexed(),
        ensures
            final(self).indexed(),
            match apply_record(old(self)@, RecordView { kind: RecordType::Symbol, entries: entry_views(es@) }) {
                Ok(m) => r.is_ok() && final(self)@ == m,
                Err(e) => r.is_err() && r.unwrap_err() == e,
            },
    {
        match (get_int(es, 0), get_text(es, 1), get_int(es, 2)) {
            (Some(i), Some(name), Some(k)) => {
                if es.len() != 3 {
                    return Err(LoadError::BadEntry);
                }
                if i as usize >= self.symbols.len() {
                    return Err(LoadError::IndexOutOfRange);
                }
                match SymbolType::from_u16(k) {
                    None => Err(LoadError::BadSymbolKind),
                    Some(kind) => {
                        let ghost nm = name@;
                        self.symbols.set(i as usize, Some(Symbol::new(i as usize, name, kind)));
                        assert(self@.symbols =~= old(self)@.symbols.update(i as int, Some((nm, kind))));
                        Ok(())
                    },
                }
            },
            _ => Err(LoadError::BadEntry),
        }
    }

    fn apply_group(&mut self, es: &Vec<RecordEntry>) -> (r: Result<(), LoadError>)
        requires
            old(self).indexed(),
        ensures
            final(self).indexed(),
            match apply_record(old(self)@, RecordView { kind: RecordType::Group, entries: entry_views(es@) }) {
                Ok(m) => r.is_ok() && final(self)@ == m,
                Err(e) => r.is_err() && r.unwrap_err() == e,
            },
    {
        match (get_int(es, 0), get_text(es, 1), get_int(es, 2), get_int(es, 3), get_int(es, 4), get_int(es, 5), get_int(es, 6), get_int(es, 8)) {
            (Some(i), Some(name), Some(c), Some(st), Some(en), Some(a), Some(e), Some(k)) => {
                if !is_empty_entry(es, 7) || es.len() != 9 + (k as usize) {
                    return Err(LoadError::BadEntry);
                }
                match (read_ints(es, 9, k as usize), AdvanceMode::from_u16(a), EndingMode::from_u16(e)) {
                    (Some(nested), Some(adv), Some(ending)) => {
                        if i as usize >= self.groups.len() {
                            return Err(LoadError::IndexOutOfRange);
                        }
                        let ghost gm = GroupModel {
                            name: name@,
                            container: c as usize,
                            start: st as usize,
                            end: en as usize,
                            advance: adv,
                            ending,
                            nested: nested@,
                        };
                        let grp = LexicalGroup {
                            index: i as usize,
                            name,
                            container_idx: c as usize,
                            start_idx: st as usize,
                            end_idx: en as usize,
                            advance_mode: adv,
                            ending_mode: ending,
                            nested,
                        };
                        self.groups.set(i as usize, Some(grp));
                        assert(self@.groups =~= old(self)@.groups.update(i as int, Some(gm)));
                        Ok(())
                    },
                    _ => Err(LoadError::BadEntry),
                }
            },
            _ => Err(LoadError::BadEntry),
        }
    }

    fn apply_rule(&mut self, es: &Vec<RecordEntry>) -> (r: Result<(), LoadError>)
        requires
            old(self).indexed(),
        ensures
            final(self).indexed(),
            match apply_record(old(self)@, RecordView { kind: RecordType::Production, entries: entry_views(es@) }) {
                Ok(m) => r.is_ok() && final(self)@ == m,
                Err(e) => r.is_err() && r.unwrap_err() == e,
            },
    {
        match (get_int(es, 0), get_int(es, 1)) {
            (Some(i), Some(h)) => {
                if !is_empty_entry(es, 2) {
                    return Err(LoadError::BadEntry);
                }
                let body = match read_ints(es, 3, es.len() - 3) {
                    Some(b) => b,
                    None => {
                        return Err(LoadError::BadEntry);
                    },
                };
                if i as usize >= self.rules.len() {
                    return Err(LoadError::IndexOutOfRange);
                }
                let ghost bs = body@;
                self.rules.set(i as usize, Some(ProductionRule::new(i as usize, h as usize, body)));
                assert(self@.rules =~= old(self)@.rules.update(i as int, Some((h as usize, bs))));
                Ok(())
            },
            _ => Err(LoadError::BadEntry),
        }
    }

    fn apply_init(&mut self, es: &Vec<RecordEntry>) -> (r: Result<(), LoadError>)
        requires
            old(self).indexed(),
        ensures
            final(self).indexed(),
            match apply_record(old(self)@, RecordView { kind: RecordType::InitState, entries: entry_views(es@) }) {
                Ok(m) => r.is_ok() && final(self)@ == m,
                Err(e) => r.is_err() && r.unwrap_err() == e,
            },
    {
        match (get_int(es, 0), get_int(es, 1)) {
            (Some(d), Some(l)) => {
                if es.len() == 2 {
                    self.init = InitialStatesRecord::new(d, l);
                    Ok(())
                } else {
                    Err(LoadError::BadEntry)
                }
            },
            _ => Err(LoadError::BadEntry),
        }
    }

    fn apply_dfa(&mut self, es: &Vec<RecordEntry>) -> (r: Result<(), LoadError>)
        requires
            old(self).indexed(),
        ensures
            final(self).indexed(),
            match apply_record(old(self)@, RecordView { kind: RecordType::DFA, entries: entry_views(es@) }) {
                Ok(m) => r.is_ok() && final(self)@ == m,
                Err(e) => r.is_err() && r.unwrap_err() == e,
            },
    {
        match (get_int(es, 0), get_bool(es, 1), get_int(es, 2)) {
            (Some(i), Some(acc), Some(sym)) => {
                if !is_empty_entry(es, 3) || (es.len() - 4) % 3 != 0 {
                    return Err(LoadError::BadEntry);
                }
                let k = (es.len() - 4) / 3;
                assert(4 + 3 * k <= es@.len()) by (nonlinear_arith)
                    requires
                        k == (es@.len() - 4) / 3,
                        es@.len() >= 4,
                ;
                let edges = match read_edges(es, 4, k) {
                    Some(v) => v,
                    None => {
                        return Err(LoadError::BadEntry);
                    },
                };
                if i as usize >= self.dfa.len() {
                    return Err(LoadError::IndexOutOfRange);
                }
                let ghost ed = edges@;
                self.dfa.set(i as usize, Some(DFAState::new(i as usize, acc, sym as usize, edges)));
                assert(self@.dfa =~= old(self)@.dfa.update(i as int, Some((acc, sym as usize, ed))));
                Ok(())
            },
            _ => Err(LoadError::BadEntry),
        }
    }

    fn apply_lalr(&mut self, es: &Vec<RecordEntry>) -> (r: Result<(), LoadError>)
        requires
            old(self).indexed(),
        ensures
            final(self).indexed(),
            match apply_record(old(self)@, RecordView { kind: RecordType::LALR, entries: entry_views(es@) }) {
                Ok(m) => r.is_ok() && final(self)@ == m,
                Err(e) => r.is_err() && r.unwrap_err() == e,
            },
    {
        match get_int(es, 0) {
            Some(i) => {
                if !is_empty_entry(es, 1) || (es.len() - 2) % 4 != 0 {
                    return Err(LoadError::BadEntry);
                }
                let k = (es.len() - 2) / 4;
                assert(2 + 4 * k <= es@.len()) by (nonlinear_arith)
                    requires
                        k == (es@.len() - 2) / 4,
                        es@.len() >= 2,
                ;
                let actions = match read_actions(es, 2, k) {
                    Ok(v) => v,
                    Err(e) => {
                        return Err(e);
                    },
                };
                if i as usize >= self.lalr.len() {
                    return Err(LoadError::IndexOutOfRange);
                }
                let ghost acts = actions@;
                self.lalr.set(i as usize, Some(LALRState::new(i as usize, actions)));
                assert(self@.lalr =~= old(self)@.lalr.update(i as int, Some(acts)));
                Ok(())
            },
            None => Err(LoadError::BadEntry),
        }
    }

    fn apply(&mut self, rec: &LogicalRecord) -> (r: Result<(), LoadError>)
        requires
            old(self).indexed(),
        ensures
            final(self).indexed(),
            match apply_record(old(self)@, rec@) {
                Ok(m) => r.is_ok() && final(self)@ == m,
                Err(e) => r.is_err() && r.unwrap_err() == e,
            },
    {
        match rec.kind {
            RecordType::Property => self.apply_property(&rec.entries),
            RecordType::Counts => self.apply_counts(&rec.entries),
            RecordType::CharSet => self.apply_charset(&rec.entries),
            RecordType::Symbol => self.apply_symbol(&rec.entries),
            RecordType::Group => self.apply_group(&rec.entries),
            RecordType::Production => self.apply_rule(&rec.entries),
            RecordType::InitState => self.apply_init(&rec.entries),
            RecordType::DFA => self.apply_dfa(&rec.entries),
            RecordType::LALR => self.apply_lalr(&rec.entries),
        }
    }
}


impl Assembly {
    /// Checks that every slot is filled and every index is in range, and
    /// builds the grammar.
    fn finish(self) -> (r: Result<EnhancedGrammarTable, LoadError>)
        requires
            self.indexed(),
        ensures
            !complete(self@) ==> r == Err::<EnhancedGrammarTable, LoadError>(LoadError::CountMismatch),
            complete(self@) ==> match r {
                Ok(g) => grammar_matches(g, self@) && g.wf(),
                Err(e) => e == LoadError::IndexOutOfRange && exists|g: EnhancedGrammarTable| grammar_matches(g, self@) && !g.wf(),
            },
    {
        let ghost m = self@;
        let ghost old_cs = self.charsets@;
        let ghost old_sy = self.symbols@;
        let ghost old_gr = self.groups@;
        let ghost old_ru = self.rules@;
        let ghost old_df = self.dfa@;
        let ghost old_la = self.lalr@;
        assert(m.charsets.len() == old_cs.len() && forall|i: int| 0 <= i < old_cs.len() ==> #[trigger] m.charsets[i] == charset_slot(old_cs[i]));
        assert(m.symbols.len() == old_sy.len() && forall|i: int| 0 <= i < old_sy.len() ==> #[trigger] m.symbols[i] == symbol_slot(old_sy[i]));
        assert(m.groups.len() == old_gr.len() && forall|i: int| 0 <= i < old_gr.len() ==> #[trigger] m.groups[i] == group_slot(old_gr[i]));
        assert(m.rules.len() == old_ru.len() && forall|i: int| 0 <= i < old_ru.len() ==> #[trigger] m.rules[i] == rule_slot(old_ru[i]));
        assert(m.dfa.len() == old_df.len() && forall|i: int| 0 <= i < old_df.len() ==> #[trigger] m.dfa[i] == dfa_slot(old_df[i]));
        assert(m.lalr.len() == old_la.len() && forall|i: int| 0 <= i < old_la.len() ==> #[trigger] m.lalr[i] == lalr_slot(old_la[i]));
        let Assembly { props, counts, charsets, symbols, groups, rules, init, dfa, lalr } = self;
        let cs = match unwrap_all(charsets) {
            Some(v) => v,
            None => {
                proof {
                    let i = choose|i: int| 0 <= i < old_cs.len() && !(#[trigger] old_cs[i]).is_some();
                    assert(m.charsets[i].is_none());
                }
                return Err(LoadError::CountMismatch);
            },
        };
        let sy = match unwrap_all(symbols) {
            Some(v) => v,
            None => {
                proof {
                    let i = choose|i: int| 0 <= i < old_sy.len() && !(#[trigger] old_sy[i]).is_some();
                    assert(m.symbols[i].is_none());
                }
                return Err(LoadError::CountMismatch);
            },
        };
        let gr = match unwrap_all(groups) {
            Some(v) => v,
            None => {
                proof {
                    let i = choose|i: int| 0 <= i < old_gr.len() && !(#[trigger] old_gr[i]).is_some();
                    assert(m.groups[i].is_none());
                }
                return Err(LoadError::CountMismatch);
            },
        };
        let ru = match unwrap_all(rules) {
            Some(v) => v,
            None => {
                proof {
                    let i = choose|i: int| 0 <= i < old_ru.len() && !(#[trigger] old_ru[i]).is_some();
                    assert(m.rules[i].is_none());
                }
                return Err(LoadError::CountMismatch);
            },
        };
        let df = match unwrap_all(dfa) {
            Some(v) => v,
            None => {
                proof {
                    let i = choose|i: int| 0 <= i < old_df.len() && !(#[trigger] old_df[i]).is_some();
                    assert(m.dfa[i].is_none());
                }
                return Err(LoadError::CountMismatch);
            },
        };
        let la = match unwrap_all(lalr) {
            Some(v) => v,
            None => {
                proof {
                    let i = choose|i: int| 0 <= i < old_la.len() && !(#[trigger] old_la[i]).is_some();
                    assert(m.lalr[i].is_none());
                }
                return Err(LoadError::CountMismatch);
            },
        };
        proof {
            reveal_strlit("GOLD Parser Tables/v5.0");
        }
        let g = EnhancedGrammarTable {
            header: String::from_str("GOLD Parser Tables/v5.0"),
            properties: props,
            counts,
            charset: CharacterSetTable(cs),
            symbols: SymbolTable(sy),
            groups: GroupTable(gr),
            productions: ProductionTable(ru),
            initial_states: init,
            dfa_states: DFAStateTable(df),
            lalr_states: LALRStateTable(la),
        };
        proof {
            assert forall|i: int| 0 <= i < m.symbols.len() implies (#[trigger] g.symbols@[i]).index == i
                && g.symbols@[i].name@ == m.symbols[i].unwrap().0 && g.symbols@[i].kind == m.symbols[i].unwrap().1 by {
                assert(old_sy[i] is Some);
            }
            assert forall|i: int| 0 <= i < m.groups.len() implies {
                let gr = #[trigger] g.groups@[i];
                let gm = m.groups[i].unwrap();
                &&& gr.index == i
                &&& gr.name@ == gm.name
                &&& gr.container_idx == gm.container
                &&& gr.start_idx == gm.start
                &&& gr.end_idx == gm.end
                &&& gr.advance_mode == gm.advance
                &&& gr.ending_mode == gm.ending
                &&& gr.nested@ == gm.nested
            } by {
                assert(old_gr[i] is Some);
            }
            assert forall|i: int| 0 <= i < m.rules.len() implies (#[trigger] g.productions@[i]).index == i
                && g.productions@[i].head == m.rules[i].unwrap().0 && g.productions@[i].symbols@ == m.rules[i].unwrap().1 by {
                assert(old_ru[i] is Some);
            }
            assert forall|i: int| 0 <= i < m.dfa.len() implies (#[trigger] g.dfa_states@[i]).index == i
                && g.dfa_states@[i].accept == m.dfa[i].unwrap().0 && g.dfa_states@[i].accept_symbol == m.dfa[i].unwrap().1
                && g.dfa_states@[i].edges@ == m.dfa[i].unwrap().2 by {
                assert(old_df[i] is Some);
            }
            assert forall|i: int| 0 <= i < m.lalr.len() implies (#[trigger] g.lalr_states@[i]).index == i
                && g.lalr_states@[i].actions@ == m.lalr[i].unwrap() by {
                assert(old_la[i] is Some);
            }
            assert forall|i: int| 0 <= i < m.charsets.len() implies (#[trigger] g.charset@[i])@ == m.charsets[i].unwrap() by {
                assert(old_cs[i] is Some);
            }
            assert forall|i: int| 0 <= i < m.props.len() implies (#[trigger] g.properties@[i]).index == m.props[i].0
                && g.properties@[i].name@ == m.props[i].1 && g.properties@[i].value@ == m.props[i].2 by {
            }
            assert(grammar_matches(g, m));
        }
        if g.validate() {
            Ok(g)
        } else {
            Err(LoadError::IndexOutOfRange)
        }
    }
}

impl Builder {
    /// Decodes the whole file and builds the grammar tables.
    pub fn to_egt(&mut self) -> (r: Result<EnhancedGrammarTable, LoadError>)
        ensures
            load_outcome(old(self).bytes_spec(), r),
    {
        match self.init() {
            Err(e) => {
                return Err(e);
            },
            Ok(()) => {},
        }
        let ghost rs = self.records_spec();
        let mut tables = Assembly::new();
        let mut i: usize = 0;
        let n = self.record_count();
        while i < n
            invariant
                n == rs.len(),
                rs == self.records_spec(),
                decode_file(old(self).bytes_spec()) == Ok::<Seq<RecordView>, LoadError>(rs),
                0 <= i <= n,
                tables.indexed(),
                assemble(rs.subrange(0, i as int)) == Ok::<TablesModel, LoadError>(tables@),
            decreases n - i,
        {
            let rec = self.record(i);
            assert(rs.subrange(0, i + 1).drop_last() =~= rs.subrange(0, i as int));
            match tables.apply(rec) {
                Err(e) => {
                    proof {
                        lemma_assemble_err(rs, i + 1);
                    }
                    return Err(e);
                },
                Ok(()) => {},
            }
            i = i + 1;
        }
        assert(rs.subrange(0, n as int) =~= rs);
        tables.finish()
    }
}

/// Loads a grammar from the bytes of a table file.
pub fn load_grammar(bytes: Vec<u8>) -> (r: Result<EnhancedGrammarTable, LoadError>)
    ensures
        load_outcome(bytes@, r),
{
    let mut b = Builder::new(bytes);
    b.to_egt()
}


/// Every character range that an edge of a loaded grammar uses is ordered:
/// for the range `(a, b)`, `a <= b`.
pub proof fn lemma_edge_ranges_ordered(
    b: Seq<u8>,
    r: Result<EnhancedGrammarTable, LoadError>,
    state: int,
    edge: int,
    k: int,
)
    requires
        load_outcome(b, r),
        r is Ok,
        0 <= state < r.unwrap().dfa_states@.len(),
        0 <= edge < r.unwrap().dfa_states@[state].edges@.len(),
        0 <= k < r.unwrap().charset@[r.unwrap().dfa_states@[state].edges@[edge].chars as int]@.len(),
    ensures
        ({
            let g = r.unwrap();
            let set = g.charset@[g.dfa_states@[state].edges@[edge].chars as int]@;
            set[k].0 <= set[k].1
        }),
{
    let g = r.unwrap();
    assert(g.wf());
    assert(crate::egt::dfa_state_ok(g.dfa_states@[state], g.symbols@.len(), g.charset@.len(), g.dfa_states@.len()));
    let c = g.dfa_states@[state].edges@[edge].chars as int;
    assert(ranges_ordered(g.charset@[c]@));
}

} // verus!
