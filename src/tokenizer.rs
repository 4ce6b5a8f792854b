//! The DFA tokenizer: longest accepting match over the source.
use vstd::prelude::*;
use crate::egt::EnhancedGrammarTable;
use crate::source::SourceReader;
use crate::states::first_edge;
use crate::symbol::SymbolType;
use crate::tables::symbol_of_kind_from;
use crate::token::Token;

verus! {

/// The state the DFA moves to from `state` on `c`, if any edge admits `c`.
pub open spec fn dfa_move(g: &EnhancedGrammarTable, state: usize, c: char) -> Option<usize> {
    first_edge(g.dfa_states@[state as int].edges@, g.charset@, c as u32)
}

/// The last accepting (symbol, length) seen while the DFA walks `rest` from
/// `state`, having already read `k` characters; `last` is the best match so far.
pub open spec fn longest_match(
    g: &EnhancedGrammarTable,
    state: usize,
    rest: Seq<char>,
    k: int,
    last: Option<(usize, int)>,
) -> Option<(usize, int)>
    decreases rest.len() - k,
{
    if k < 0 || k >= rest.len() || state >= g.dfa_states@.len() {
        last
    } else {
        match dfa_move(g, state, rest[k]) {
            None => last,
            Some(t) => longest_match(
                g,
                t,
                rest,
                k + 1,
                if t < g.dfa_states@.len() && g.dfa_states@[t as int].accept {
                    Some((g.dfa_states@[t as int].accept_symbol, k + 1))
                } else {
                    last
                },
            ),
        }
    }
}

/// The index of the first symbol of kind `kind`, or the table size where no
/// symbol has that kind.
pub open spec fn kind_symbol(g: &EnhancedGrammarTable, kind: SymbolType) -> int {
    match symbol_of_kind_from(g.symbols@, kind, 0) {
        Some(i) => i,
        None => g.symbols@.len() as int,
    }
}

/// What the tokenizer reads at the start of `rest`: the symbol, its kind and
/// the length of its text.  At the end of input it is the end-of-file symbol
/// with no text; where no accepting state is reached it is the error symbol
/// over one character; otherwise the longest accepted prefix.
pub open spec fn scan(g: &EnhancedGrammarTable, rest: Seq<char>) -> (int, SymbolType, int) {
    if rest.len() == 0 {
        (kind_symbol(g, SymbolType::EndOfFile), SymbolType::EndOfFile, 0)
    } else {
        match longest_match(g, g.initial_states.dfa as usize, rest, 0, None) {
            None => (kind_symbol(g, SymbolType::Error), SymbolType::Error, 1),
            Some((s, n)) => (s as int, g.symbols@[s as int].kind, n),
        }
    }
}

/// The characters not yet consumed.
pub open spec fn remaining(src: &SourceReader) -> Seq<char> {
    src.text().subrange(src.consumed(), src.text().len() as int)
}

proof fn lemma_longest_match_bounds(g: &EnhancedGrammarTable, state: usize, rest: Seq<char>, k: int, last: Option<(usize, int)>)
    requires
        g.wf(),
        0 <= k <= rest.len(),
        last.is_some() ==> 1 <= last.unwrap().1 <= k && last.unwrap().0 < g.symbols@.len(),
    ensures
        longest_match(g, state, rest, k, last).is_some() ==> {
            let m = longest_match(g, state, rest, k, last).unwrap();
            1 <= m.1 <= rest.len() && m.0 < g.symbols@.len()
        },
        last.is_some() ==> longest_match(g, state, rest, k, last).is_some(),
    decreases rest.len() - k,
{
    if k < rest.len() && state < g.dfa_states@.len() {
        match dfa_move(g, state, rest[k]) {
            None => {},
            Some(t) => {
                let next = if t < g.dfa_states@.len() && g.dfa_states@[t as int].accept {
                    Some((g.dfa_states@[t as int].accept_symbol, k + 1))
                } else {
                    last
                };
                if t < g.dfa_states@.len() && g.dfa_states@[t as int].accept {
                    assert(g.dfa_states@[t as int].accept_symbol < g.symbols@.len());
                }
                lemma_longest_match_bounds(g, t, rest, k + 1, next);
            },
        }
    }
}

/// Where `scan` gives a symbol, it lies in the table unless it stands for a
/// missing end-of-file or error symbol, and the text fits in what remains.
pub proof fn lemma_scan_bounds(g: &EnhancedGrammarTable, rest: Seq<char>)
    requires
        g.wf(),
    ensures
        0 <= scan(g, rest).2 <= rest.len(),
        0 <= scan(g, rest).0,
        rest.len() > 0 ==> scan(g, rest).2 >= 1,
        scan(g, rest).0 <= g.symbols@.len(),
{
    lemma_longest_match_bounds(g, g.initial_states.dfa as usize, rest, 0, None);
    lemma_kind_symbol(g, SymbolType::EndOfFile);
    lemma_kind_symbol(g, SymbolType::Error);
}

proof fn lemma_kind_symbol_from(t: Seq<crate::symbol::Symbol>, kind: SymbolType, i: int)
    requires
        0 <= i,
    ensures
        symbol_of_kind_from(t, kind, i).is_some() ==> {
            let j = symbol_of_kind_from(t, kind, i).unwrap();
            i <= j < t.len() && t[j].kind == kind
        },
    decreases t.len() - i,
{
    if i < t.len() && t[i].kind != kind {
        lemma_kind_symbol_from(t, kind, i + 1);
    }
}

pub proof fn lemma_kind_symbol(g: &EnhancedGrammarTable, kind: SymbolType)
    ensures
        kind_symbol(g, kind) <= g.symbols@.len(),
        kind_symbol(g, kind) >= 0,
        kind_symbol(g, kind) < g.symbols@.len() ==> g.symbols@[kind_symbol(g, kind)].kind == kind,
{
    lemma_kind_symbol_from(g.symbols@, kind, 0);
}

/// The index of the first symbol of kind `kind`, or the table size.
pub fn symbol_of_kind(g: &EnhancedGrammarTable, kind: SymbolType) -> (r: usize)
    ensures
        r == kind_symbol(g, kind),
{
    let mut i: usize = 0;
    while i < g.symbols.0.len()
        invariant
            0 <= i <= g.symbols@.len(),
            symbol_of_kind_from(g.symbols@, kind, 0) == symbol_of_kind_from(g.symbols@, kind, i as int),
        decreases g.symbols@.len() - i,
    {
        if g.symbols.0[i].kind == kind {
            return i;
        }
        i = i + 1;
    }
    g.symbols.0.len()
}

/// Reads one token at the current position by the longest accepting match,
/// without consuming it.  The token's text is the matched prefix; its
/// position is the reader's current position.
pub fn input_token(g: &EnhancedGrammarTable, src: &mut SourceReader) -> (r: Token)
    requires
        g.wf(),
        old(src).wf(),
    ensures
        final(src).wf(),
        final(src).text() == old(src).text(),
        final(src).consumed() == old(src).consumed(),
        final(src).pos() == old(src).pos(),
        final(src).buffered() >= scan(g, remaining(old(src))).2,
        r.symbol == scan(g, remaining(old(src))).0,
        r.kind == scan(g, remaining(old(src))).1,
        r.text@ == remaining(old(src)).subrange(0, scan(g, remaining(old(src))).2),
        r.reduction.is_none(),
        r.pos == old(src).pos(),
{
    proof {
        src.lemma_wf();
    }
    let ghost rest = remaining(src);
    let pos = src.position();
    match src.lookahead(1) {
        None => {
            let text = src.get_buf_slice_to(0);
            assert(text@ =~= rest.subrange(0, 0));
            let mut t = Token::new(symbol_of_kind(g, SymbolType::EndOfFile), SymbolType::EndOfFile, text);
            t.pos = pos;
            return t;
        },
        Some(_) => {},
    }
    let init = g.initial_states.dfa as usize;
    let mut state: usize = init;
    let mut i: usize = 1;
    let mut last_sym: usize = 0;
    let mut last_len: usize = 0;
    let mut found = false;
    proof {
        src.lemma_wf();
    }
    loop
        invariant
            g.wf(),
            src.wf(),
            src.text() == old(src).text(),
            src.consumed() == old(src).consumed(),
            src.pos() == old(src).pos(),
            rest == remaining(old(src)),
            rest.len() >= 1,
            src.buffered() >= 1,
            1 <= i <= rest.len() + 1,
            state < g.dfa_states@.len(),
            found ==> 1 <= last_len < i && last_len <= src.buffered() && last_sym < g.symbols@.len(),
            longest_match(g, init, rest, 0, None) == longest_match(
                g,
                state,
                rest,
                i - 1,
                if found { Some((last_sym, last_len as int)) } else { None },
            ),
        ensures
            src.wf(),
            src.text() == old(src).text(),
            src.consumed() == old(src).consumed(),
            src.pos() == old(src).pos(),
            src.buffered() >= 1,
            found ==> 1 <= last_len <= src.buffered() && last_sym < g.symbols@.len(),
            longest_match(g, init, rest, 0, None) == if found { Some((last_sym, last_len as int)) } else { None },
        decreases rest.len() + 1 - i,
    {
        proof {
            src.lemma_wf();
        }
        let c = match src.lookahead(i) {
            None => {
                assert(i - 1 >= rest.len());
                break;
            },
            Some(c) => c,
        };
        assert(c == rest[i - 1]);
        match g.dfa_states.0[state].find_edge(&g.charset.0, c) {
            None => {
                assert(dfa_move(g, state, rest[i - 1]).is_none());
                break;
            },
            Some(t) => {
                assert(g.dfa_states@[state as int].edges@.len() > 0);
                proof {
                    lemma_first_edge_in_range(g, state, c);
                }
                if g.dfa_states.0[t].accept {
                    found = true;
                    last_sym = g.dfa_states.0[t].accept_symbol;
                    last_len = i;
                }
                state = t;
                i = i + 1;
            },
        }
    }
    if !found {
        let text = src.get_buf_slice_to(1);
        let mut t = Token::new(symbol_of_kind(g, SymbolType::Error), SymbolType::Error, text);
        t.pos = pos;
        t
    } else {
        let text = src.get_buf_slice_to(last_len);
        let mut t = Token::new(last_sym, g.symbols.0[last_sym].kind, text);
        t.pos = pos;
        t
    }
}

proof fn lemma_first_edge_from_in_range(g: &EnhancedGrammarTable, state: usize, c: char, i: int)
    requires
        g.wf(),
        state < g.dfa_states@.len(),
        0 <= i,
    ensures
        crate::states::first_edge_from(g.dfa_states@[state as int].edges@, g.charset@, c as u32, i).is_some()
            ==> crate::states::first_edge_from(g.dfa_states@[state as int].edges@, g.charset@, c as u32, i).unwrap()
            < g.dfa_states@.len(),
    decreases g.dfa_states@[state as int].edges@.len() - i,
{
    let edges = g.dfa_states@[state as int].edges@;
    if i < edges.len() {
        assert(crate::egt::dfa_state_ok(g.dfa_states@[state as int], g.symbols@.len(), g.charset@.len(), g.dfa_states@.len()));
        assert(edges[i].target_state < g.dfa_states@.len());
        lemma_first_edge_from_in_range(g, state, c, i + 1);
    }
}

proof fn lemma_first_edge_in_range(g: &EnhancedGrammarTable, state: usize, c: char)
    requires
        g.wf(),
        state < g.dfa_states@.len(),
    ensures
        dfa_move(g, state, c).is_some() ==> dfa_move(g, state, c).unwrap() < g.dfa_states@.len(),
{
    lemma_first_edge_from_in_range(g, state, c, 0);
}

} // verus!
