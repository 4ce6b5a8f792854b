use goldparser::position::Position;
use goldparser::production::ProductionRule;
use goldparser::symbol::{Symbol, SymbolType};
use goldparser::charset::CharacterSet;
use goldparser::tables::{CharacterSetTable, ProductionTable, SymbolTable};

#[test]
fn symbol_type() {
    let kind = SymbolType::NonTerminal;
    println!("{} {:?}", kind.format(), kind);
    assert_eq!(kind.format(), "<{}>");
    assert_eq!(SymbolType::Terminal.format(), "'{}'");
    assert_eq!(SymbolType::EndOfFile.format(), "({})");
}

#[test]
fn handles() {
    assert_eq!(Symbol::new(0, "Expr".to_string(), SymbolType::NonTerminal).as_handle(), "<Expr>");
    assert_eq!(Symbol::new(1, "+".to_string(), SymbolType::Terminal).as_handle(), "'+'");
    assert_eq!(Symbol::new(2, "EOF".to_string(), SymbolType::EndOfFile).as_handle(), "(EOF)");
}

#[test]
fn symbol_equality() {
    let a = Symbol::new(3, "id".to_string(), SymbolType::Terminal);
    let b = Symbol::new(3, "id".to_string(), SymbolType::Terminal);
    let c = Symbol::new(3, "id".to_string(), SymbolType::NonTerminal);
    assert!(a == b);
    assert!(a != c);
}

#[test]
fn kind_codes() {
    assert_eq!(SymbolType::from_u16(0), Some(SymbolType::NonTerminal));
    assert_eq!(SymbolType::from_u16(7), Some(SymbolType::Error));
    assert_eq!(SymbolType::from_u16(8), None);
}

fn table() -> SymbolTable {
    let mut t = SymbolTable::new();
    t.push(Symbol::new(0, "EOF".to_string(), SymbolType::EndOfFile));
    t.push(Symbol::new(1, "+".to_string(), SymbolType::Terminal));
    t.push(Symbol::new(2, "E".to_string(), SymbolType::NonTerminal));
    t
}

#[test]
fn tables_display() {
    let t = table();
    assert_eq!(t.as_handle(), "(EOF) '+' <E> \n");
    assert_eq!(t.get(&"E".to_string()).unwrap().index, 2);
    assert!(t.get(&"F".to_string()).is_none());
    assert_eq!(t.get_by_type(SymbolType::Terminal).unwrap().name, "+");
}

#[test]
fn rule_forms() {
    let t = table();
    let rule = ProductionRule::new(0, 2, vec![2, 1, 2]);
    assert_eq!(rule.handle(&t), "<E> '+' <E>");
    assert_eq!(rule.to_string(&t), "<E> ::= <E> '+' <E>");
    assert!(!rule.has_only_nonterminal(&t));
    let chain = ProductionRule::new(1, 2, vec![2]);
    assert!(chain.has_only_nonterminal(&t));
    let empty = ProductionRule::new(2, 2, vec![]);
    assert_eq!(empty.to_string(&t), "<E> ::= ");
}

#[test]
fn position_moves() {
    let mut p = Position::new();
    p.inc_col();
    p.inc_col();
    assert_eq!((p.line(), p.col()), (1, 3));
    p.inc_line();
    assert_eq!((p.line(), p.col()), (2, 1));
    p.clear();
    assert_eq!((p.line(), p.col()), (1, 1));
}

#[test]
fn symbol_table_scatter_write() {
    let mut t = SymbolTable::new();
    t.resize(3);
    assert_eq!(t.len(), 3);
    assert_eq!(t.0[2].index, 2);
    assert_eq!(t.0[2].kind, SymbolType::Undefined);
    t.add(Symbol::new(1, "id".to_string(), SymbolType::Terminal));
    assert_eq!(t.0[1].name, "id");
    assert_eq!(t.0[0].name, "");
    t.resize(1);
    assert_eq!(t.len(), 1);
}

#[test]
fn charset_table_lookup() {
    let mut t = CharacterSetTable::new();
    t.resize(2);
    t.add(1, CharacterSet::new(vec![(48, 57)]));
    assert!(t.contains(&CharacterSet::new(vec![(48, 57)])));
    assert!(t.contains(&CharacterSet::empty()));
    assert!(!t.contains(&CharacterSet::new(vec![(48, 58)])));
    let mut rules = ProductionTable::new();
    assert!(rules.get(0).is_none());
    rules.0.push(ProductionRule::new(0, 2, vec![1]));
    assert_eq!(rules.get(0).unwrap().head, 2);
}
