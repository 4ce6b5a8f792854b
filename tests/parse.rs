use goldparser::assemble::load_grammar;
use goldparser::builder::{Builder, LoadError, RecordEntry};
use goldparser::egt::EnhancedGrammarTable;
use goldparser::parser::{GPMessage, Parser};
use goldparser::position::Position;
use goldparser::states::ActionType;
use goldparser::symbol::SymbolType;
use goldparser::token::{Reduction, Token};

const SHIFT: u16 = 1;
const REDUCE: u16 = 2;
const GOTO: u16 = 3;
const ACCEPT: u16 = 4;

enum E {
    Empty,
    Byte(u8),
    Bool(bool),
    Int(u16),
    Str(String),
}

fn put_str(out: &mut Vec<u8>, s: &str) {
    for u in s.encode_utf16() {
        out.extend_from_slice(&u.to_le_bytes());
    }
    out.extend_from_slice(&[0, 0]);
}

fn record(out: &mut Vec<u8>, kind: u8, entries: Vec<E>) {
    out.push(b'M');
    out.extend_from_slice(&((entries.len() + 1) as u16).to_le_bytes());
    out.push(b'b');
    out.push(kind);
    for e in entries {
        match e {
            E::Empty => out.push(b'E'),
            E::Byte(b) => {
                out.push(b'b');
                out.push(b);
            },
            E::Bool(b) => {
                out.push(b'B');
                out.push(b as u8);
            },
            E::Int(i) => {
                out.push(b'I');
                out.extend_from_slice(&i.to_le_bytes());
            },
            E::Str(s) => {
                out.push(b'S');
                put_str(out, &s);
            },
        }
    }
}

struct Desc {
    symbols: Vec<(&'static str, u16)>,
    charsets: Vec<Vec<(u16, u16)>>,
    rules: Vec<(u16, Vec<u16>)>,
    dfa: Vec<(Option<u16>, Vec<(u16, u16)>)>,
    lalr: Vec<Vec<(u16, u16, u16)>>,
    groups: Vec<(&'static str, u16, u16, u16, u16, u16, Vec<u16>)>,
}

fn header(out: &mut Vec<u8>) {
    put_str(out, "GOLD Parser Tables/v5.0");
}

fn counts(out: &mut Vec<u8>, s: usize, c: usize, r: usize, d: usize, l: usize, g: usize) {
    record(out, b't', vec![E::Int(s as u16), E::Int(c as u16), E::Int(r as u16), E::Int(d as u16), E::Int(l as u16), E::Int(g as u16)]);
}

fn bytes_of(d: &Desc) -> Vec<u8> {
    let mut out = Vec::new();
    header(&mut out);
    record(&mut out, b'p', vec![E::Int(0), E::Str("Name".to_string()), E::Str("Test".to_string())]);
    counts(&mut out, d.symbols.len(), d.charsets.len(), d.rules.len(), d.dfa.len(), d.lalr.len(), d.groups.len());
    for (i, set) in d.charsets.iter().enumerate() {
        let mut es = vec![E::Int(i as u16), E::Int(0), E::Int(set.len() as u16), E::Empty];
        for (a, b) in set {
            es.push(E::Int(*a));
            es.push(E::Int(*b));
        }
        record(&mut out, b'c', es);
    }
    for (i, (name, kind)) in d.symbols.iter().enumerate() {
        record(&mut out, b'S', vec![E::Int(i as u16), E::Str(name.to_string()), E::Int(*kind)]);
    }
    for (i, (name, c, s, e, a, en, nested)) in d.groups.iter().enumerate() {
        let mut es = vec![
            E::Int(i as u16),
            E::Str(name.to_string()),
            E::Int(*c),
            E::Int(*s),
            E::Int(*e),
            E::Int(*a),
            E::Int(*en),
            E::Empty,
            E::Int(nested.len() as u16),
        ];
        for n in nested {
            es.push(E::Int(*n));
        }
        record(&mut out, b'g', es);
    }
    for (i, (head, body)) in d.rules.iter().enumerate() {
        let mut es = vec![E::Int(i as u16), E::Int(*head), E::Empty];
        for b in body {
            es.push(E::Int(*b));
        }
        record(&mut out, b'R', es);
    }
    record(&mut out, b'I', vec![E::Int(0), E::Int(0)]);
    for (i, (acc, edges)) in d.dfa.iter().enumerate() {
        let mut es = vec![E::Int(i as u16), E::Bool(acc.is_some()), E::Int(acc.unwrap_or(0)), E::Empty];
        for (c, t) in edges {
            es.push(E::Int(*c));
            es.push(E::Int(*t));
            es.push(E::Empty);
        }
        record(&mut out, b'D', es);
    }
    for (i, actions) in d.lalr.iter().enumerate() {
        let mut es = vec![E::Int(i as u16), E::Empty];
        for (s, a, t) in actions {
            es.push(E::Int(*s));
            es.push(E::Int(*a));
            es.push(E::Int(*t));
            es.push(E::Empty);
        }
        record(&mut out, b'L', es);
    }
    out
}

/// Writes loaded tables back out in the same layout as `bytes_of`.
fn serialize(g: &EnhancedGrammarTable) -> Vec<u8> {
    let mut out = Vec::new();
    header(&mut out);
    for p in &g.properties {
        record(&mut out, b'p', vec![E::Int(p.index as u16), E::Str(p.name.clone()), E::Str(p.value.clone())]);
    }
    counts(&mut out, g.symbols.0.len(), g.charset.0.len(), g.productions.0.len(), g.dfa_states.0.len(), g.lalr_states.0.len(), g.groups.0.len());
    for (i, set) in g.charset.0.iter().enumerate() {
        let plane = set.ranges().first().map(|r| (r.0 >> 16) as u16).unwrap_or(0);
        let mut es = vec![E::Int(i as u16), E::Int(plane), E::Int(set.ranges().len() as u16), E::Empty];
        for (a, b) in set.ranges() {
            es.push(E::Int((*a & 0xFFFF) as u16));
            es.push(E::Int((*b & 0xFFFF) as u16));
        }
        record(&mut out, b'c', es);
    }
    for s in &g.symbols.0 {
        let code = match s.kind {
            SymbolType::NonTerminal => 0,
            SymbolType::Terminal => 1,
            SymbolType::Noise => 2,
            SymbolType::EndOfFile => 3,
            SymbolType::GroupStart => 4,
            SymbolType::GroupEnd => 5,
            SymbolType::Deprecated => 6,
            SymbolType::Error => 7,
            SymbolType::Undefined => 99,
        };
        record(&mut out, b'S', vec![E::Int(s.index as u16), E::Str(s.name.clone()), E::Int(code)]);
    }
    for grp in &g.groups.0 {
        let adv = match grp.advance_mode {
            goldparser::group::AdvanceMode::Token => 0,
            goldparser::group::AdvanceMode::Character => 1,
        };
        let end = match grp.ending_mode {
            goldparser::group::EndingMode::Open => 0,
            goldparser::group::EndingMode::Closed => 1,
        };
        let mut es = vec![
            E::Int(grp.index as u16),
            E::Str(grp.name.clone()),
            E::Int(grp.container_idx as u16),
            E::Int(grp.start_idx as u16),
            E::Int(grp.end_idx as u16),
            E::Int(adv),
            E::Int(end),
            E::Empty,
            E::Int(grp.nested.len() as u16),
        ];
        for n in &grp.nested {
            es.push(E::Int(*n as u16));
        }
        record(&mut out, b'g', es);
    }
    for r in &g.productions.0 {
        let mut es = vec![E::Int(r.index as u16), E::Int(r.head as u16), E::Empty];
        for b in &r.symbols {
            es.push(E::Int(*b as u16));
        }
        record(&mut out, b'R', es);
    }
    record(&mut out, b'I', vec![E::Int(g.initial_states.dfa), E::Int(g.initial_states.lalr)]);
    for s in &g.dfa_states.0 {
        let mut es = vec![E::Int(s.index as u16), E::Bool(s.accept), E::Int(s.accept_symbol as u16), E::Empty];
        for e in &s.edges {
            es.push(E::Int(e.chars as u16));
            es.push(E::Int(e.target_state as u16));
            es.push(E::Empty);
        }
        record(&mut out, b'D', es);
    }
    for s in &g.lalr_states.0 {
        let mut es = vec![E::Int(s.index as u16), E::Empty];
        for a in &s.actions {
            let code = match a.action {
                ActionType::Shift => 1,
                ActionType::Reduce => 2,
                ActionType::Goto => 3,
                ActionType::Accept => 4,
                ActionType::Undefined => 0,
            };
            es.push(E::Int(a.symbol as u16));
            es.push(E::Int(code));
            es.push(E::Int(a.target_idx as u16));
            es.push(E::Empty);
        }
        record(&mut out, b'L', es);
    }
    out
}

// Symbols of the expression grammar.
const EOF: usize = 0;
const PLUS: usize = 2;
const LPAREN: usize = 3;
const ID: usize = 5;
const WS: usize = 7;
const COMMENT: usize = 8;

/// `E ::= E '+' E | '(' E ')' | id`, with whitespace as noise and nestable
/// `/* ... */` comments.
fn expr_desc() -> Desc {
    Desc {
        symbols: vec![
            ("EOF", 3),
            ("Error", 7),
            ("+", 1),
            ("(", 1),
            (")", 1),
            ("id", 1),
            ("E", 0),
            ("Whitespace", 2),
            ("Comment", 2),
            ("/*", 4),
            ("*/", 5),
        ],
        charsets: vec![
            vec![(9, 10), (13, 13), (32, 32)],
            vec![(105, 105)],
            vec![(100, 100)],
            vec![(43, 43)],
            vec![(40, 40)],
            vec![(41, 41)],
            vec![(47, 47)],
            vec![(42, 42)],
        ],
        rules: vec![(6, vec![6, 2, 6]), (6, vec![3, 6, 4]), (6, vec![5])],
        dfa: vec![
            (None, vec![(0, 1), (1, 2), (3, 4), (4, 5), (5, 6), (6, 7), (7, 9)]),
            (Some(7), vec![(0, 1)]),
            (None, vec![(2, 3)]),
            (Some(5), vec![]),
            (Some(2), vec![]),
            (Some(3), vec![]),
            (Some(4), vec![]),
            (None, vec![(7, 8)]),
            (Some(9), vec![]),
            (None, vec![(6, 10)]),
            (Some(10), vec![]),
        ],
        lalr: vec![
            vec![(3, SHIFT, 2), (5, SHIFT, 3), (6, GOTO, 1)],
            vec![(0, ACCEPT, 0), (2, SHIFT, 4)],
            vec![(3, SHIFT, 2), (5, SHIFT, 3), (6, GOTO, 5)],
            vec![(2, REDUCE, 2), (4, REDUCE, 2), (0, REDUCE, 2)],
            vec![(3, SHIFT, 2), (5, SHIFT, 3), (6, GOTO, 6)],
            vec![(4, SHIFT, 7), (2, SHIFT, 4)],
            vec![(2, REDUCE, 0), (4, REDUCE, 0), (0, REDUCE, 0)],
            vec![(2, REDUCE, 1), (4, REDUCE, 1), (0, REDUCE, 1)],
        ],
        groups: vec![("Comment Block", 8, 9, 10, 1, 1, vec![0])],
    }
}

/// `S ::= 'a' | S 'a'`.
fn repeat_desc() -> Desc {
    Desc {
        symbols: vec![("EOF", 3), ("Error", 7), ("a", 1), ("S", 0)],
        charsets: vec![vec![(97, 97)]],
        rules: vec![(3, vec![2]), (3, vec![3, 2])],
        dfa: vec![(None, vec![(0, 1)]), (Some(2), vec![])],
        lalr: vec![
            vec![(2, SHIFT, 1), (3, GOTO, 2)],
            vec![(0, REDUCE, 0), (2, REDUCE, 0)],
            vec![(0, ACCEPT, 0), (2, SHIFT, 3)],
            vec![(0, REDUCE, 1), (2, REDUCE, 1)],
        ],
        groups: vec![],
    }
}

/// `A ::= B`, `B ::= C`, `C ::= 'x'`.
fn chain_desc() -> Desc {
    Desc {
        symbols: vec![("EOF", 3), ("Error", 7), ("x", 1), ("A", 0), ("B", 0), ("C", 0)],
        charsets: vec![vec![(120, 120)]],
        rules: vec![(3, vec![4]), (4, vec![5]), (5, vec![2])],
        dfa: vec![(None, vec![(0, 1)]), (Some(2), vec![])],
        lalr: vec![
            vec![(2, SHIFT, 1), (3, GOTO, 2), (4, GOTO, 3), (5, GOTO, 4)],
            vec![(0, REDUCE, 2)],
            vec![(0, ACCEPT, 0)],
            vec![(0, REDUCE, 0)],
            vec![(0, REDUCE, 1)],
        ],
        groups: vec![],
    }
}

fn grammar(d: &Desc) -> EnhancedGrammarTable {
    load_grammar(bytes_of(d)).expect("test grammar loads")
}

fn parser_for(d: &Desc, src: &str) -> Parser {
    let g = grammar(d);
    assert!(g.validate());
    let mut p = Parser::new(g);
    p.load_source(src.to_string());
    p
}

#[derive(Debug, Clone, PartialEq)]
enum Ev {
    Read(usize, String),
    Reduce(usize),
    Accept,
    Other(GPMessage),
}

fn run(p: &mut Parser) -> Vec<Ev> {
    let mut evs = Vec::new();
    for _ in 0..1000 {
        let m = p.parse_step();
        match m {
            GPMessage::TokenRead => {
                let t = p.get_current_token().unwrap();
                evs.push(Ev::Read(t.symbol, t.text.clone()));
            },
            GPMessage::Reduction => evs.push(Ev::Reduce(p.last_rule())),
            GPMessage::Accept => {
                evs.push(Ev::Accept);
                return evs;
            },
            other => {
                evs.push(Ev::Other(other));
                return evs;
            },
        }
    }
    panic!("parse did not halt");
}

fn leaves(r: &Reduction, out: &mut String) {
    for t in &r.tokens {
        match &t.reduction {
            Some(inner) => leaves(inner, out),
            None => out.push_str(&t.text),
        }
    }
}

fn check_lengths(g: &EnhancedGrammarTable, r: &Reduction) {
    assert_eq!(r.tokens.len(), g.productions.0[r.rule].symbols.len());
    for t in &r.tokens {
        if let Some(inner) = &t.reduction {
            check_lengths(g, inner);
        }
    }
}

#[test]
fn parser_new() {
    let p = Parser::new(grammar(&repeat_desc()));
    assert!(!p.is_initialized());
    assert_eq!(p.stack().len(), 1);
    assert_eq!(p.current_state(), 0);
    assert_eq!(p.grammar().property(&"Name".to_string()).unwrap(), "Test");
}

#[test]
fn parse_test() {
    let mut b = Builder::new(bytes_of(&repeat_desc()));
    assert!(b.init().is_ok());
    assert_eq!(b.record_count(), 1 + 1 + 1 + 4 + 2 + 1 + 2 + 4);
}

#[test]
fn repeated_a_events() {
    let mut p = parser_for(&repeat_desc(), "aaa");
    let evs = run(&mut p);
    let reads: Vec<&Ev> = evs.iter().filter(|e| matches!(e, Ev::Read(s, _) if *s != EOF)).collect();
    assert_eq!(reads.len(), 3);
    let reductions: Vec<usize> = evs.iter().filter_map(|e| if let Ev::Reduce(r) = e { Some(*r) } else { None }).collect();
    assert_eq!(reductions, vec![0, 1, 1]);
    assert_eq!(evs.last(), Some(&Ev::Accept));
    assert!(p.is_accepted());
}

#[test]
fn id_plus_id_events() {
    let mut p = parser_for(&expr_desc(), "id+id");
    let evs = run(&mut p);
    assert_eq!(
        evs,
        vec![
            Ev::Read(ID, "id".to_string()),
            Ev::Read(PLUS, "+".to_string()),
            Ev::Reduce(2),
            Ev::Read(ID, "id".to_string()),
            Ev::Read(EOF, "".to_string()),
            Ev::Reduce(2),
            Ev::Reduce(0),
            Ev::Accept,
        ]
    );
}

#[test]
fn noise_whitespace_is_dropped() {
    let mut p = parser_for(&expr_desc(), "  id  ");
    let evs = run(&mut p);
    assert_eq!(evs.last(), Some(&Ev::Accept));
    let reads: Vec<usize> = evs.iter().filter_map(|e| if let Ev::Read(s, _) = e { Some(*s) } else { None }).collect();
    assert_eq!(reads, vec![WS, ID, WS, EOF]);
    let root = p.get_current_reduction().unwrap();
    assert_eq!(root.rule, 2);
    assert_eq!(root.tokens.len(), 1);
    assert_eq!(root.tokens[0].text, "id");
}

#[test]
fn nested_comment_is_one_token() {
    let mut p = parser_for(&expr_desc(), "/* outer /* inner */ still outer */ id");
    let mut kinds = Vec::new();
    loop {
        let t = p.produce_token();
        kinds.push((t.symbol, t.text.clone()));
        if t.kind == SymbolType::EndOfFile {
            break;
        }
    }
    assert_eq!(
        kinds,
        vec![
            (COMMENT, "/* outer /* inner */ still outer */".to_string()),
            (WS, " ".to_string()),
            (ID, "id".to_string()),
            (EOF, "".to_string()),
        ]
    );
    let not_whitespace: Vec<&(usize, String)> = kinds.iter().filter(|k| k.0 != WS && k.0 != EOF).collect();
    assert_eq!(not_whitespace.len(), 2);
    let mut p = parser_for(&expr_desc(), "/* outer /* inner */ still outer */ id");
    assert_eq!(p.parse(), GPMessage::Accept);
}

#[test]
fn unknown_character_is_lexical_error() {
    let mut p = parser_for(&expr_desc(), "@");
    let evs = run(&mut p);
    assert_eq!(evs, vec![Ev::Read(1, "@".to_string()), Ev::Other(GPMessage::LexicalError)]);
    assert_eq!(p.current_position(), Position { line: 1, col: 1 });
    let t = p.get_current_token().unwrap();
    assert_eq!(t.kind, SymbolType::Error);
    assert_eq!(t.text, "@");
}

#[test]
fn open_paren_is_syntax_error() {
    let mut p = parser_for(&expr_desc(), "(");
    let evs = run(&mut p);
    assert_eq!(evs.last(), Some(&Ev::Other(GPMessage::SyntaxError)));
    assert_eq!(p.current_position(), Position { line: 1, col: 2 });
    let expected = p.expected_symbols().to_vec();
    assert!(expected.contains(&ID));
    assert!(expected.contains(&LPAREN));
    assert_eq!(expected.len(), 2);
}

#[test]
fn unclosed_comment_is_group_error() {
    let mut p = parser_for(&expr_desc(), "id /* never closed");
    assert_eq!(p.parse(), GPMessage::GroupError);
    assert_eq!(p.current_position(), Position { line: 1, col: 19 });
    assert!(p.open_group_count() > 0);
}

#[test]
fn trimmed_chain_leaves_one_token() {
    let mut p = parser_for(&chain_desc(), "x");
    p.set_trim_reductions(true);
    assert!(p.trim_reductions());
    let evs = run(&mut p);
    assert_eq!(evs.last(), Some(&Ev::Accept));
    let top: &Token = p.stack().last().unwrap();
    assert_eq!(top.symbol, 3);
    let red = top.reduction.as_ref().unwrap();
    assert_eq!(red.rule, 2);
    assert_eq!(red.tokens.len(), 1);
    assert_eq!(red.tokens[0].text, "x");
    assert_eq!(p.stack().len(), 2);
}

#[test]
fn untrimmed_chain_keeps_wrappers() {
    let mut p = parser_for(&chain_desc(), "x");
    assert_eq!(p.parse(), GPMessage::Accept);
    let root = p.get_current_reduction().unwrap();
    assert_eq!(root.rule, 0);
    let b = root.tokens[0].reduction.as_ref().unwrap();
    assert_eq!(b.rule, 1);
}

#[test]
fn empty_source_reads_end_of_file_first() {
    let mut p = parser_for(&repeat_desc(), "");
    let evs = run(&mut p);
    assert_eq!(evs, vec![Ev::Read(EOF, "".to_string()), Ev::Other(GPMessage::SyntaxError)]);
    assert_eq!(p.current_position(), Position { line: 1, col: 1 });
}

#[test]
fn reset_replays_the_same_events() {
    let mut p = parser_for(&expr_desc(), "( id + id ) + id");
    let first = run(&mut p);
    assert_eq!(first.last(), Some(&Ev::Accept));
    p.reset();
    let second = run(&mut p);
    assert_eq!(first, second);
}

#[test]
fn reset_restores_initial_state() {
    let mut p = parser_for(&expr_desc(), "id + id");
    run(&mut p);
    p.reset();
    assert_eq!(p.current_state(), 0);
    assert_eq!(p.stack().len(), 1);
    assert_eq!(p.stack()[0].lalr_state, 0);
    assert_eq!(p.source_position(), Position { line: 1, col: 1 });
    assert!(p.get_current_token().is_none());
}

#[test]
fn leaves_spell_the_source_without_noise() {
    let src = " id +\n( id  )+id ";
    let mut p = parser_for(&expr_desc(), src);
    assert_eq!(p.parse(), GPMessage::Accept);
    let mut text = String::new();
    leaves(p.get_current_reduction().unwrap(), &mut text);
    let expected: String = src.chars().filter(|c| !c.is_whitespace()).collect();
    assert_eq!(text, expected);
    check_lengths(p.grammar(), p.get_current_reduction().unwrap());
}

#[test]
fn tables_round_trip() {
    for d in [expr_desc(), repeat_desc(), chain_desc()] {
        let bytes = bytes_of(&d);
        let g1 = load_grammar(bytes.clone()).unwrap();
        let out1 = serialize(&g1);
        assert_eq!(out1, bytes);
        let g2 = load_grammar(out1.clone()).unwrap();
        assert_eq!(serialize(&g2), out1);
        assert_eq!(g2.symbols.0.len(), d.symbols.len());
        assert_eq!(g2.symbols.0[2].name, d.symbols[2].0);
    }
}

#[test]
fn loaded_tables_hold_the_records() {
    let g = grammar(&expr_desc());
    assert_eq!(g.header, "GOLD Parser Tables/v5.0");
    assert_eq!(g.counts.symtab, 11);
    assert_eq!(g.symbols.0[9].kind, SymbolType::GroupStart);
    assert_eq!(g.symbols.0[5].name, "id");
    assert_eq!(g.charset.0[0].ranges(), &vec![(9, 10), (13, 13), (32, 32)]);
    assert_eq!(g.productions.0[0].symbols, vec![6, 2, 6]);
    assert_eq!(g.lalr_states.0[1].actions[0].action, ActionType::Accept);
    assert_eq!(g.groups.0[0].nested, vec![0]);
    assert_eq!(g.total_records(), 1 + 8 + 11 + 1 + 3 + 11 + 8);
}

fn load_err(bytes: Vec<u8>) -> LoadError {
    load_grammar(bytes).err().expect("load fails")
}

#[test]
fn bad_header() {
    let mut out = Vec::new();
    put_str(&mut out, "GOLD Parser Tables/v1.0");
    assert_eq!(load_err(out), LoadError::BadHeader);
    assert_eq!(load_err(vec![]), LoadError::BadHeader);
}

#[test]
fn truncated_record() {
    let mut bytes = bytes_of(&repeat_desc());
    bytes.truncate(bytes.len() - 2);
    assert_eq!(load_err(bytes), LoadError::Truncated);
}

#[test]
fn bad_tag() {
    let mut out = Vec::new();
    header(&mut out);
    out.extend_from_slice(&[b'M', 2, 0, b'b', b't', b'Q']);
    assert_eq!(load_err(out), LoadError::BadTag);
    let mut out = Vec::new();
    header(&mut out);
    out.push(b'X');
    assert_eq!(load_err(out), LoadError::BadTag);
}

#[test]
fn bad_record_discriminator() {
    let mut out = Vec::new();
    header(&mut out);
    record(&mut out, b'z', vec![]);
    assert_eq!(load_err(out), LoadError::BadRecordDiscriminator);
}

#[test]
fn bad_symbol_kind() {
    let mut out = Vec::new();
    header(&mut out);
    counts(&mut out, 1, 0, 0, 0, 0, 0);
    record(&mut out, b'S', vec![E::Int(0), E::Str("s".to_string()), E::Int(42)]);
    assert_eq!(load_err(out), LoadError::BadSymbolKind);
}

#[test]
fn bad_action_type() {
    let mut out = Vec::new();
    header(&mut out);
    counts(&mut out, 1, 0, 0, 0, 1, 0);
    record(&mut out, b'L', vec![E::Int(0), E::Empty, E::Int(0), E::Int(9), E::Int(0), E::Empty]);
    assert_eq!(load_err(out), LoadError::BadActionType);
}

#[test]
fn index_out_of_range() {
    let mut out = Vec::new();
    header(&mut out);
    record(&mut out, b'S', vec![E::Int(0), E::Str("s".to_string()), E::Int(1)]);
    assert_eq!(load_err(out), LoadError::IndexOutOfRange);
    let mut d = repeat_desc();
    d.lalr[0][0] = (2, SHIFT, 17);
    assert_eq!(load_err(bytes_of(&d)), LoadError::IndexOutOfRange);
}

#[test]
fn count_mismatch() {
    let mut out = Vec::new();
    header(&mut out);
    counts(&mut out, 2, 0, 0, 0, 0, 0);
    record(&mut out, b'S', vec![E::Int(0), E::Str("s".to_string()), E::Int(1)]);
    assert_eq!(load_err(out), LoadError::CountMismatch);
}

#[test]
fn bad_entry() {
    let mut out = Vec::new();
    header(&mut out);
    record(&mut out, b'I', vec![E::Int(0)]);
    assert_eq!(load_err(out), LoadError::BadEntry);
    let mut out = Vec::new();
    header(&mut out);
    record(&mut out, b'p', vec![E::Byte(1), E::Str("a".to_string()), E::Str("b".to_string())]);
    assert_eq!(load_err(out), LoadError::BadEntry);
}

#[test]
fn inverted_range_is_refused() {
    let mut d = repeat_desc();
    d.charsets[0] = vec![(98, 97)];
    assert_eq!(load_err(bytes_of(&d)), LoadError::BadRange);
}

#[test]
fn malformed_string_is_refused() {
    let mut out = Vec::new();
    header(&mut out);
    counts(&mut out, 1, 0, 0, 0, 0, 0);
    out.extend_from_slice(&[b'M', 4, 0, b'b', b'S', b'I', 0, 0, b'S', 0x00, 0xDC, 0, 0, b'I', 1, 0]);
    assert_eq!(load_err(out), LoadError::BadString);
}

#[test]
fn strings_decode_from_utf16() {
    let mut d = repeat_desc();
    d.symbols[3] = ("Ŝtart€", 0);
    let g = grammar(&d);
    assert_eq!(g.symbols.0[3].name, "Ŝtart€");
}

#[test]
fn not_loaded_before_source() {
    let mut p = Parser::new(grammar(&repeat_desc()));
    assert_eq!(p.parse_step(), GPMessage::NotLoadedError);
    assert_eq!(p.parse(), GPMessage::NotLoadedError);
}

#[test]
fn symbol_lookup() {
    let p = Parser::new(grammar(&expr_desc()));
    assert_eq!(p.symbol_by_name(&"id".to_string()).unwrap().index, ID);
    assert_eq!(p.symbol_by_type(SymbolType::Noise).unwrap().index, WS);
    assert!(p.symbol_by_name(&"nothing".to_string()).is_none());
}

#[test]
fn gold_parser_draws_the_tree() {
    let mut gp = goldparser::GOLDParser::new(grammar(&expr_desc()), "id+id".to_string(), false, true);
    assert!(gp.ignore_indent);
    assert!(gp.ignore_case);
    assert_eq!(gp.get_parse_tree(), "Error: Parse Tree Not Available.");
    assert!(gp.parse_source());
    assert_eq!(
        gp.get_parse_tree(),
        "+-<E> ::= <E> '+' <E>\r\n| +-<E> ::= 'id'\r\n| | +-id\r\n| +-+\r\n| +-<E> ::= 'id'\r\n| | +-id\r\n"
    );
    assert_eq!(gp.source_size(), 5);
    gp.clear();
    assert!(gp.root().is_none());
}

#[test]
fn gold_parser_reports_failure() {
    let mut gp = goldparser::GOLDParser::new(grammar(&expr_desc()), "id+".to_string(), true, false);
    assert!(!gp.parse_source());
    assert_eq!(gp.get_parse_tree(), "Error: Parse Tree Not Available.");
}

#[test]
fn position_text() {
    assert_eq!(Position { line: 12, col: 7 }.to_string(), " [12, 7]");
    assert_eq!(Position { line: 1, col: 100 }.to_string(), " [1, 100]");
}

#[test]
fn record_entry_accessors() {
    assert_eq!(RecordEntry::Integer(7).integer(), Some(7));
    assert_eq!(RecordEntry::Integer(7).as_usize(), Some(7));
    assert_eq!(RecordEntry::Byte(3).integer(), None);
    assert_eq!(RecordEntry::Byte(3).byte(), Some(3));
    assert_eq!(RecordEntry::Bool(true).bool(), Some(true));
    assert_eq!(RecordEntry::String("ab".to_string()).string(), Some("ab".to_string()));
    assert_eq!(RecordEntry::Empty.string(), None);
}

#[test]
fn accepted_parser_keeps_accepting() {
    let mut p = parser_for(&repeat_desc(), "aa");
    assert_eq!(p.parse(), GPMessage::Accept);
    assert_eq!(p.parse_step(), GPMessage::Accept);
    assert!(p.is_accepted());
}

#[test]
fn version_and_about() {
    let p = Parser::new(grammar(&repeat_desc()));
    assert_eq!(p.version(), "GOLD Parser Engine - Version 5.0.3\nTest ");
    assert!(p.about().is_none());
}

/// `S ::= 'a' | S 'a'` with blanks as noise and `#` comments that run up to
/// a newline, which is left on the input.
fn line_comment_desc() -> Desc {
    Desc {
        symbols: vec![
            ("EOF", 3),
            ("Error", 7),
            ("a", 1),
            ("S", 0),
            ("Whitespace", 2),
            ("Comment", 2),
            ("#", 4),
            ("NewLine", 2),
        ],
        charsets: vec![vec![(97, 97)], vec![(32, 32)], vec![(35, 35)], vec![(10, 10)]],
        rules: vec![(3, vec![2]), (3, vec![3, 2])],
        dfa: vec![
            (None, vec![(0, 1), (1, 2), (2, 3), (3, 4)]),
            (Some(2), vec![]),
            (Some(4), vec![]),
            (Some(6), vec![]),
            (Some(7), vec![]),
        ],
        lalr: vec![
            vec![(2, SHIFT, 1), (3, GOTO, 2)],
            vec![(0, REDUCE, 0), (2, REDUCE, 0)],
            vec![(0, ACCEPT, 0), (2, SHIFT, 3)],
            vec![(0, REDUCE, 1), (2, REDUCE, 1)],
        ],
        groups: vec![("Comment Line", 5, 6, 7, 0, 0, vec![])],
    }
}

#[test]
fn line_comment_leaves_its_end_on_the_input() {
    let mut p = parser_for(&line_comment_desc(), "a # a a\na");
    let mut seen = Vec::new();
    loop {
        let t = p.produce_token();
        seen.push((t.symbol, t.text.clone(), t.pos.line, t.pos.col));
        if t.kind == SymbolType::EndOfFile {
            break;
        }
    }
    assert_eq!(
        seen,
        vec![
            (2, "a".to_string(), 1, 1),
            (4, " ".to_string(), 1, 2),
            (5, "# a a".to_string(), 1, 3),
            (7, "\n".to_string(), 1, 8),
            (2, "a".to_string(), 2, 1),
            (0, "".to_string(), 2, 2),
        ]
    );
    let mut p = parser_for(&line_comment_desc(), "a # a a\na");
    assert_eq!(p.parse(), GPMessage::Accept);
}

#[test]
fn missing_goto_is_internal_error() {
    let mut d = repeat_desc();
    d.lalr[0] = vec![(2, SHIFT, 1)];
    let mut p = parser_for(&d, "a");
    let evs = run(&mut p);
    assert_eq!(evs.last(), Some(&Ev::Other(GPMessage::InternalError)));
    assert_eq!(p.stack().len(), 2);
}

/// Two character-mode groups: `{ ... }`, which lets `[ ... ]` nest inside it,
/// and `[ ... ]`, which lets nothing nest inside itself.
fn two_groups_desc() -> Desc {
    Desc {
        symbols: vec![
            ("EOF", 3),
            ("Error", 7),
            ("a", 1),
            ("S", 0),
            ("Comment", 2),
            ("{", 4),
            ("}", 5),
            ("[", 4),
            ("]", 5),
            ("Inner", 2),
        ],
        charsets: vec![vec![(97, 97)], vec![(123, 123)], vec![(125, 125)], vec![(91, 91)], vec![(93, 93)]],
        rules: vec![(3, vec![2]), (3, vec![3, 2])],
        dfa: vec![
            (None, vec![(0, 1), (1, 2), (2, 3), (3, 4), (4, 5)]),
            (Some(2), vec![]),
            (Some(5), vec![]),
            (Some(6), vec![]),
            (Some(7), vec![]),
            (Some(8), vec![]),
        ],
        lalr: vec![
            vec![(2, SHIFT, 1), (3, GOTO, 2)],
            vec![(0, REDUCE, 0), (2, REDUCE, 0)],
            vec![(0, ACCEPT, 0), (2, SHIFT, 3)],
            vec![(0, REDUCE, 1), (2, REDUCE, 1)],
        ],
        groups: vec![("Braces", 4, 5, 6, 1, 1, vec![1]), ("Brackets", 9, 7, 8, 1, 1, vec![])],
    }
}

#[test]
fn nesting_follows_the_outermost_group() {
    let mut p = parser_for(&two_groups_desc(), "{[[]}a]");
    let t = p.produce_token();
    assert_eq!(t.kind, SymbolType::EndOfFile);
    assert_eq!(p.open_group_count(), 1);
    let mut p = parser_for(&two_groups_desc(), "{[[]]}a");
    let t = p.produce_token();
    assert_eq!((t.symbol, t.text.as_str()), (4, "{[[]]}"));
    assert_eq!(p.parse(), GPMessage::Accept);
}

#[test]
fn charset_ranges_lie_in_their_plane() {
    let mut out = Vec::new();
    header(&mut out);
    counts(&mut out, 0, 1, 0, 0, 0, 0);
    record(&mut out, b'c', vec![E::Int(0), E::Int(1), E::Int(1), E::Empty, E::Int(0xF600), E::Int(0xF64F)]);
    let mut b = Builder::new(out);
    assert!(b.init().is_ok());
    let set = goldparser::charset::CharacterSet::new(vec![(0x1F600, 0x1F64F)]);
    assert!(set.contains('\u{1F642}'));
    let mut out = Vec::new();
    header(&mut out);
    counts(&mut out, 1, 1, 0, 1, 1, 0);
    record(&mut out, b'c', vec![E::Int(0), E::Int(1), E::Int(1), E::Empty, E::Int(0xF600), E::Int(0xF64F)]);
    record(&mut out, b'S', vec![E::Int(0), E::Str("EOF".to_string()), E::Int(3)]);
    record(&mut out, b'D', vec![E::Int(0), E::Bool(false), E::Int(0), E::Empty]);
    record(&mut out, b'L', vec![E::Int(0), E::Empty]);
    let g = load_grammar(out).unwrap();
    assert_eq!(g.charset.0[0].ranges(), &vec![(0x1F600, 0x1F64F)]);
    assert!(g.charset.0[0].contains('\u{1F642}'));
    assert!(!g.charset.0[0].contains('\u{F642}'));
}

#[test]
fn accept_on_a_deeper_stack_is_internal_error() {
    let mut d = repeat_desc();
    d.lalr[3] = vec![(0, ACCEPT, 0), (2, REDUCE, 1)];
    let mut p = parser_for(&d, "aa");
    assert_eq!(p.parse(), GPMessage::InternalError);
    assert!(!p.is_accepted());
}

#[test]
fn gold_parser_keeps_the_last_result() {
    let mut gp = goldparser::GOLDParser::new(grammar(&expr_desc()), "(".to_string(), false, false);
    assert!(!gp.parse_source());
    assert_eq!(gp.last_result, GPMessage::SyntaxError);
    assert_eq!(gp.run(), GPMessage::SyntaxError);
}

#[test]
fn surrogate_pairs_decode_to_one_character() {
    let mut d = repeat_desc();
    d.symbols[3] = ("S\u{1F600}", 0);
    let g = grammar(&d);
    assert_eq!(g.symbols.0[3].name, "S\u{1F600}");
    assert_eq!(g.symbols.0[3].name.chars().count(), 2);
}

#[test]
fn clear_returns_to_the_start() {
    let mut p = parser_for(&expr_desc(), "id + id");
    assert_eq!(p.parse(), GPMessage::Accept);
    p.clear();
    assert_eq!(p.stack().len(), 1);
    assert!(p.get_current_token().is_none());
    assert!(!p.is_accepted());
    assert_eq!(p.parse(), GPMessage::Accept);
}
