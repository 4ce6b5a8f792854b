//! The LALR(1) driver: a stack machine over the tokens that the tokenizer
//! produces, with lexical groups handled between the two.
use vstd::prelude::*;
use crate::egt::{EnhancedGrammarTable, action_ok, lalr_state_ok};
use crate::group::{AdvanceMode, EndingMode};
use crate::position::Position;
use crate::production::rule_in_range;
use crate::source::{SourceReader, position_at, lemma_position_bounds};
use crate::states::{ActionType, LALRAction, action_for, action_from};
use crate::symbol::{Symbol, SymbolType};
use crate::tokenizer::{input_token, lemma_scan_bounds, remaining, scan};
use crate::token::{Reduction, Token};

verus! {

/// The events that a parse step reports.
#[derive(Debug, Clone, Copy, PartialEq, Eq, Structural)]
pub enum GPMessage {
    /// Nothing was decided: `parse` stopped after its step budget.
    Empty,
    /// A token was read from the source.
    TokenRead,
    /// A rule was reduced.
    Reduction,
    /// The input was accepted.
    Accept,
    /// No source has been given.
    NotLoadedError,
    /// The tokenizer met a character that starts no token.
    LexicalError,
    /// The lookahead token is not expected in the current state.
    SyntaxError,
    /// The source ended inside a lexical group.
    GroupError,
    /// The tables are inconsistent (a reduction found no Goto).
    InternalError,
}

/// What one LALR action on the lookahead did.
#[derive(Debug, Clone, Copy, PartialEq, Eq, Structural)]
pub enum GPParseResult {
    Undefined,
    Shift,
    Reduce,
    ReduceTrimmed,
    Accept,
    SyntaxError,
    InternalError,
}

/// Errors that a caller of the parser can meet.
#[derive(Debug, Clone, Copy, PartialEq, Eq, Structural)]
pub enum ParserError {
    Format(GPMessage),
}

/// A lexical group that is open: its index and the token that gathers its text.
#[derive(Debug)]
pub struct OpenGroup {
    pub group: usize,
    pub token: Token,
}

/// The symbols on which the actions shift, in action order.
pub open spec fn shift_symbols(actions: Seq<LALRAction>) -> Seq<usize>
    decreases actions.len(),
{
    if actions.len() == 0 {
        Seq::empty()
    } else {
        shift_symbols(actions.drop_last()) + if actions.last().action == ActionType::Shift {
            seq![actions.last().symbol]
        } else {
            Seq::empty()
        }
    }
}

/// The first group, from position `i` on, that starts with symbol `sym`.
pub open spec fn group_starting_from(g: &EnhancedGrammarTable, sym: usize, i: int) -> Option<usize>
    decreases g.groups@.len() - i,
{
    if i < 0 || i >= g.groups@.len() {
        None
    } else if g.groups@[i].start_idx == sym {
        Some(i as usize)
    } else {
        group_starting_from(g, sym, i + 1)
    }
}

/// An open group as the tokenizer sees it: the group, the symbol and kind
/// of the token that opened it, the text gathered so far, and where it began.
pub struct GroupFrame {
    pub group: usize,
    pub symbol: usize,
    pub kind: SymbolType,
    pub text: Seq<char>,
    pub pos: Position,
}

/// A token as the tokenizer hands it out.
pub struct TokenModel {
    pub symbol: int,
    pub kind: SymbolType,
    pub text: Seq<char>,
    pub pos: Position,
}

/// The outcome of one round of the group-aware tokenizer: a finished token
/// with the new consumed count and open groups, or just the latter.
pub enum GroupStep {
    Done(TokenModel, int, Seq<GroupFrame>),
    Next(int, Seq<GroupFrame>),
}

pub open spec fn frame_of(o: OpenGroup) -> GroupFrame {
    GroupFrame { group: o.group, symbol: o.token.symbol, kind: o.token.kind, text: o.token.text@, pos: o.token.pos }
}

pub open spec fn frames_of(gs: Seq<OpenGroup>) -> Seq<GroupFrame> {
    gs.map_values(|o: OpenGroup| frame_of(o))
}

/// The position after the first `c` characters of `s`.
pub open spec fn pos_at(s: Seq<char>, c: int) -> Position {
    Position {
        line: position_at(s, c).0 as usize,
        col: position_at(s, c).1 as usize,
    }
}

/// One round: read a token at `c`; a group start opens a group when no
/// group is open or when the outermost open group permits it to nest;
/// outside groups the token is the result; inside a group the end symbol
/// closes the innermost group (taking its text when the group's ending is
/// closed), the end of input stops, and anything else is added to the
/// group's text, whole or one character at a time.
pub open spec fn group_step(g: &EnhancedGrammarTable, s: Seq<char>, c: int, frames: Seq<GroupFrame>) -> GroupStep {
    let rest = s.subrange(c, s.len() as int);
    let sc = scan(g, rest);
    let read = TokenModel { symbol: sc.0, kind: sc.1, text: rest.subrange(0, sc.2), pos: pos_at(s, c) };
    let start = if sc.1 == SymbolType::GroupStart {
        group_starting_from(g, sc.0 as usize, 0)
    } else {
        None
    };
    let nest = match start {
        Some(gi) => frames.len() == 0 || g.groups@[frames[0].group as int].nested@.contains(gi),
        None => false,
    };
    if nest {
        GroupStep::Next(
            c + sc.2,
            frames.push(GroupFrame { group: start.unwrap(), symbol: sc.0 as usize, kind: sc.1, text: read.text, pos: read.pos }),
        )
    } else if frames.len() == 0 {
        GroupStep::Done(read, c + sc.2, frames)
    } else {
        let top = frames.last();
        let grp = g.groups@[top.group as int];
        if grp.end_idx as int == sc.0 && sc.1 != SymbolType::EndOfFile {
            let closed = grp.ending_mode == EndingMode::Closed;
            let text = if closed { top.text + read.text } else { top.text };
            let c2 = if closed { c + sc.2 } else { c };
            if frames.len() == 1 {
                GroupStep::Done(
                    TokenModel {
                        symbol: grp.container_idx as int,
                        kind: g.symbols@[grp.container_idx as int].kind,
                        text,
                        pos: top.pos,
                    },
                    c2,
                    Seq::empty(),
                )
            } else {
                let outer = frames[frames.len() - 2];
                GroupStep::Next(c2, frames.drop_last().drop_last().push(GroupFrame { text: outer.text + text, ..outer }))
            }
        } else if sc.1 == SymbolType::EndOfFile {
            GroupStep::Done(read, c, frames)
        } else if grp.advance_mode == AdvanceMode::Token {
            GroupStep::Next(c + sc.2, frames.drop_last().push(GroupFrame { text: top.text + read.text, ..top }))
        } else {
            GroupStep::Next(c + 1, frames.drop_last().push(GroupFrame { text: top.text + rest.subrange(0, 1), ..top }))
        }
    }
}

/// The token the group-aware tokenizer produces from `c` with `frames` open,
/// with the consumed count and the groups still open afterwards.
pub open spec fn produce_from(g: &EnhancedGrammarTable, s: Seq<char>, c: int, frames: Seq<GroupFrame>) -> (TokenModel, int, Seq<GroupFrame>)
    decreases s.len() - c, frames.len(),
{
    let none = TokenModel { symbol: 0, kind: SymbolType::Undefined, text: Seq::empty(), pos: Position { line: 1, col: 1 } };
    if c < 0 || c > s.len() {
        (none, c, frames)
    } else {
        match group_step(g, s, c, frames) {
            GroupStep::Done(t, c2, f) => (t, c2, f),
            GroupStep::Next(c2, f) => if (c < c2 && c2 <= s.len()) || (c2 == c && f.len() < frames.len()) {
                produce_from(g, s, c2, f)
            } else {
                (none, c, frames)
            },
        }
    }
}

/// The texts of the open groups, outermost first, run together.
pub open spec fn frames_text(f: Seq<GroupFrame>) -> Seq<char>
    decreases f.len(),
{
    if f.len() == 0 {
        Seq::empty()
    } else {
        frames_text(f.drop_last()) + f.last().text
    }
}

proof fn lemma_group_starting_bound(g: &EnhancedGrammarTable, sym: usize, i: int)
    requires
        0 <= i,
    ensures
        group_starting_from(g, sym, i) is Some ==> group_starting_from(g, sym, i).unwrap() < g.groups@.len(),
    decreases g.groups@.len() - i,
{
    if i < g.groups@.len() && g.groups@[i].start_idx != sym {
        lemma_group_starting_bound(g, sym, i + 1);
    }
}

/// A token that the group-aware tokenizer hands out with no group left open
/// has as its text exactly the source it consumed, from where the outermost
/// open group began.
pub proof fn lemma_produced_text(g: &EnhancedGrammarTable, s: Seq<char>, c: int, f: Seq<GroupFrame>, start: int)
    requires
        g.wf(),
        0 <= start <= c <= s.len(),
        frames_text(f) == s.subrange(start, c),
        f.len() == 0 ==> start == c,
        forall|i: int| 0 <= i < f.len() ==> (#[trigger] f[i]).group < g.groups@.len(),
    ensures
        ({
            let out = produce_from(g, s, c, f);
            out.2.len() == 0 ==> out.0.text == s.subrange(start, out.1)
                && c <= out.1 <= s.len()
        }),
    decreases s.len() - c, f.len(),
{
    let rest = s.subrange(c, s.len() as int);
    lemma_scan_bounds(g, rest);
    let sc = scan(g, rest);
    let read_text = rest.subrange(0, sc.2);
    assert(read_text =~= s.subrange(c, c + sc.2));
    assert(s.subrange(start, c) + s.subrange(c, c + sc.2) =~= s.subrange(start, c + sc.2));
    assert(frames_text(Seq::<GroupFrame>::empty()) == Seq::<char>::empty());
    let start_g = if sc.1 == SymbolType::GroupStart {
        group_starting_from(g, sc.0 as usize, 0)
    } else {
        None
    };
    let nest = match start_g {
        Some(gi) => f.len() == 0 || g.groups@[f[0].group as int].nested@.contains(gi),
        None => false,
    };
    let step = group_step(g, s, c, f);
    if nest {
        let f2 = step->Next_1;
        assert(f2.drop_last() =~= f);
        lemma_group_starting_bound(g, sc.0 as usize, 0);
        assert forall|i: int| 0 <= i < f2.len() implies (#[trigger] f2[i]).group < g.groups@.len() by {
            if i < f2.len() - 1 {
                assert(f2[i] == f[i]);
            }
        };
        assert(frames_text(f2) == frames_text(f2.drop_last()) + f2.last().text);
        if f.len() == 0 {
            assert(frames_text(f) =~= Seq::<char>::empty());
            assert(frames_text(f2) =~= s.subrange(c, c + sc.2));
            lemma_produced_text(g, s, c + sc.2, f2, c);
        } else {
            lemma_produced_text(g, s, c + sc.2, f2, start);
        }
    } else if f.len() == 0 {
    } else {
        let top = f.last();
        let grp = g.groups@[top.group as int];
        assert(frames_text(f) == frames_text(f.drop_last()) + top.text);
        if grp.end_idx as int == sc.0 && sc.1 != SymbolType::EndOfFile {
            let closed = grp.ending_mode == EndingMode::Closed;
            let text = if closed { top.text + read_text } else { top.text };
            let c2 = if closed { c + sc.2 } else { c };
            assert(frames_text(f) + (if closed { read_text } else { Seq::empty() }) =~= s.subrange(start, c2));
            if f.len() == 1 {
                assert(f.drop_last() =~= Seq::<GroupFrame>::empty());
                assert(text =~= s.subrange(start, c2));
            } else {
                let outer = f[f.len() - 2];
                let f2 = step->Next_1;
                let inner = f.drop_last();
                assert(inner.last() == outer);
                assert(frames_text(inner) == frames_text(inner.drop_last()) + outer.text);
                assert(f2.drop_last() =~= inner.drop_last());
                assert(frames_text(f2) == frames_text(f2.drop_last()) + f2.last().text);
                assert(frames_text(f2) =~= s.subrange(start, c2));
                assert forall|i: int| 0 <= i < f2.len() implies (#[trigger] f2[i]).group < g.groups@.len() by {
                    if i < f2.len() - 1 {
                        assert(f2[i] == f[i]);
                    } else {
                        assert(f2[i].group == outer.group);
                    }
                };
                lemma_produced_text(g, s, c2, f2, start);
            }
        } else if sc.1 == SymbolType::EndOfFile {
        } else {
            let f2 = step->Next_1;
            let c2 = step->Next_0;
            assert(f2.drop_last() =~= f.drop_last());
            assert(frames_text(f2) == frames_text(f2.drop_last()) + f2.last().text);
            assert(rest.subrange(0, 1) =~= s.subrange(c, c + 1));
            assert(s.subrange(start, c) + s.subrange(c, c + 1) =~= s.subrange(start, c + 1));
            assert(frames_text(f2) =~= s.subrange(start, c2));
            assert forall|i: int| 0 <= i < f2.len() implies (#[trigger] f2[i]).group < g.groups@.len() by {
                if i < f2.len() - 1 {
                    assert(f2[i] == f[i]);
                }
            };
            lemma_produced_text(g, s, c2, f2, start);
        }
    }
}

/// Whether `p` has read exactly the first `k` tokens of source `s`: the
/// reader and the open groups are where those tokens leave them, and the
/// text read is their non-noise text.
pub open spec fn stream_reached(p: &Parser, s: Seq<char>, k: nat) -> bool {
    let ss = stream_state(p.grammar_spec(), s, k);
    &&& p.source_spec().text() == s
    &&& p.source_spec().consumed() == ss.1
    &&& p.frames_spec() == ss.2
    &&& p.read_text_spec() == nonnoise_text(ss.0)
}

/// The first `k` tokens that the tokenizer produces from the start of
/// source `s`, with the consumed count and the open groups after them.
pub open spec fn stream_state(g: &EnhancedGrammarTable, s: Seq<char>, k: nat) -> (Seq<TokenModel>, int, Seq<GroupFrame>)
    decreases k,
{
    if k == 0 {
        (Seq::empty(), 0, Seq::empty())
    } else {
        let prev = stream_state(g, s, (k - 1) as nat);
        let out = produce_from(g, s, prev.1, prev.2);
        (prev.0.push(out.0), out.1, out.2)
    }
}

/// The texts of the tokens that are not noise, run together in order.
pub open spec fn nonnoise_text(ts: Seq<TokenModel>) -> Seq<char>
    decreases ts.len(),
{
    if ts.len() == 0 {
        Seq::empty()
    } else {
        nonnoise_text(ts.drop_last()) + if ts.last().kind == SymbolType::Noise {
            Seq::empty()
        } else {
            ts.last().text
        }
    }
}

/// On an empty source the first token is the end of file, at line 1,
/// column 1, with no text, and no group is left open.
pub proof fn lemma_empty_source_reads_eof(g: &EnhancedGrammarTable)
    requires
        g.wf(),
    ensures
        ({
            let out = produce_from(g, Seq::empty(), 0, Seq::empty());
            &&& out.0.kind == SymbolType::EndOfFile
            &&& out.0.text.len() == 0
            &&& out.0.pos == (Position { line: 1, col: 1 })
            &&& out.1 == 0
            &&& out.2.len() == 0
        }),
{
    let s = Seq::<char>::empty();
    assert(s.subrange(0, 0) =~= s);
    assert(s.subrange(0, s.len() as int) =~= s);
}

/// A one-character source whose character no edge of the DFA's start state
/// admits is read as the error symbol over that character, at line 1,
/// column 1.
pub proof fn lemma_uncovered_char_is_error(g: &EnhancedGrammarTable, c: char)
    requires
        g.wf(),
        crate::tokenizer::dfa_move(g, g.initial_states.dfa as usize, c).is_none(),
    ensures
        ({
            let out = produce_from(g, seq![c], 0, Seq::empty());
            &&& out.0.kind == SymbolType::Error
            &&& out.0.text == seq![c]
            &&& out.0.pos == (Position { line: 1, col: 1 })
            &&& out.1 == 1
            &&& out.2.len() == 0
        }),
{
    let s = seq![c];
    assert(s.subrange(0, 0) =~= Seq::<char>::empty());
    assert(s.subrange(0, s.len() as int) =~= s);
    assert(s.subrange(0, 1) =~= s);
    assert(crate::tokenizer::longest_match(g, g.initial_states.dfa as usize, s, 0, None).is_none());
}

/// The texts of the terminal leaves of the tokens of `r` from position `i`
/// on, in pre-order.
pub open spec fn leaves_from(r: Reduction, i: int) -> Seq<char>
    decreases r, r.tokens@.len() - i,
{
    if i < 0 || i >= r.tokens@.len() {
        Seq::empty()
    } else {
        (match r.tokens@[i].reduction {
            Some(b) => leaves_from(*b, 0),
            None => r.tokens@[i].text@,
        }) + leaves_from(r, i + 1)
    }
}

/// The texts of the terminal leaves under a token: its own text for a
/// terminal, its reduction's leaves otherwise.
pub open spec fn token_leaves(t: Token) -> Seq<char> {
    match t.reduction {
        Some(b) => leaves_from(*b, 0),
        None => t.text@,
    }
}

/// The leaves of a sequence of tokens, in order.
pub open spec fn tokens_leaves(ts: Seq<Token>) -> Seq<char>
    decreases ts.len(),
{
    if ts.len() == 0 {
        Seq::empty()
    } else {
        token_leaves(ts[0]) + tokens_leaves(ts.drop_first())
    }
}

/// The text that the pending token contributes to the leaves: its own, unless
/// it is noise.
pub open spec fn pending_text(input: Option<Token>) -> Seq<char> {
    match input {
        Some(t) => if t.kind == SymbolType::Noise {
            Seq::empty()
        } else {
            t.text@
        },
        None => Seq::empty(),
    }
}

pub proof fn lemma_tokens_leaves_append(a: Seq<Token>, b: Seq<Token>)
    ensures
        tokens_leaves(a + b) == tokens_leaves(a) + tokens_leaves(b),
    decreases a.len(),
{
    if a.len() == 0 {
        assert(a + b =~= b);
    } else {
        assert((a + b).drop_first() =~= a.drop_first() + b);
        lemma_tokens_leaves_append(a.drop_first(), b);
    }
}

pub proof fn lemma_leaves_from(r: Reduction, i: int)
    requires
        0 <= i <= r.tokens@.len(),
    ensures
        leaves_from(r, i) == tokens_leaves(r.tokens@.subrange(i, r.tokens@.len() as int)),
    decreases r.tokens@.len() - i,
{
    let sub = r.tokens@.subrange(i, r.tokens@.len() as int);
    if i < r.tokens@.len() {
        assert(sub.drop_first() =~= r.tokens@.subrange(i + 1, r.tokens@.len() as int));
        lemma_leaves_from(r, i + 1);
    } else {
        assert(sub.len() == 0);
    }
}

/// The leaves of a reduction are the leaves of its tokens, in order.
pub proof fn lemma_reduction_leaves(r: Reduction)
    ensures
        leaves_from(r, 0) == tokens_leaves(r.tokens@),
{
    lemma_leaves_from(r, 0);
    assert(r.tokens@.subrange(0, r.tokens@.len() as int) =~= r.tokens@);
}

proof fn lemma_tokens_leaves_push(a: Seq<Token>, t: Token)
    ensures
        tokens_leaves(a.push(t)) == tokens_leaves(a) + token_leaves(t),
{
    lemma_tokens_leaves_append(a, seq![t]);
    assert(a + seq![t] =~= a.push(t));
    assert(seq![t].drop_first() =~= Seq::<Token>::empty());
    assert(tokens_leaves(Seq::<Token>::empty()) == Seq::<char>::empty());
    assert(seq![t][0] == t);
    assert(tokens_leaves(seq![t]) =~= token_leaves(t));
}

/// Whether a token's own reduction, if any, names a rule and holds one
/// token per body symbol of that rule.
pub open spec fn reduction_fits(g: &EnhancedGrammarTable, t: Token) -> bool {
    match t.reduction {
        Some(r) => r.rule < g.productions@.len() && r.tokens@.len() == g.productions@[r.rule as int].symbols@.len(),
        None => true,
    }
}

/// Whether every reduction among the tokens of `r` from position `i` on, at
/// any depth, names a rule and holds one token per body symbol of it.
pub open spec fn fits_from(g: &EnhancedGrammarTable, r: Reduction, i: int) -> bool
    decreases r, r.tokens@.len() - i,
{
    if i < 0 || i >= r.tokens@.len() {
        true
    } else {
        (match r.tokens@[i].reduction {
            Some(b) => reduction_fits(g, r.tokens@[i]) && fits_from(g, *b, 0),
            None => true,
        }) && fits_from(g, r, i + 1)
    }
}

/// Whether every reduction in the tree under `t` names a rule and holds one
/// token per body symbol of it.
pub open spec fn token_fits(g: &EnhancedGrammarTable, t: Token) -> bool {
    match t.reduction {
        Some(b) => reduction_fits(g, t) && fits_from(g, *b, 0),
        None => true,
    }
}

pub proof fn lemma_fits_from(g: &EnhancedGrammarTable, r: Reduction, i: int)
    requires
        0 <= i <= r.tokens@.len(),
    ensures
        fits_from(g, r, i) <==> forall|j: int| i <= j < r.tokens@.len() ==> token_fits(g, #[trigger] r.tokens@[j]),
    decreases r.tokens@.len() - i,
{
    if i < r.tokens@.len() {
        lemma_fits_from(g, r, i + 1);
        if fits_from(g, r, i) {
            assert forall|j: int| i <= j < r.tokens@.len() implies token_fits(g, #[trigger] r.tokens@[j]) by {
                if j > i {
                    assert(fits_from(g, r, i + 1));
                }
            };
        }
        if forall|j: int| i <= j < r.tokens@.len() ==> token_fits(g, #[trigger] r.tokens@[j]) {
            assert(token_fits(g, r.tokens@[i]));
            assert forall|j: int| i + 1 <= j < r.tokens@.len() implies token_fits(g, #[trigger] r.tokens@[j]) by {
            };
        }
    }
}

/// Whether reducing rule `rule` on `stack` finds a Goto on the rule's head in
/// the state of the token just below the rule's body.
pub open spec fn goto_after_reduce(g: &EnhancedGrammarTable, stack: Seq<Token>, rule: usize) -> bool {
    let n = g.productions@[rule as int].symbols@.len();
    let below = stack[stack.len() - 1 - n];
    &&& rule < g.productions@.len()
    &&& n < stack.len()
    &&& below.lalr_state < g.lalr_states@.len()
    &&& action_for(g.lalr_states@[below.lalr_state as int].actions@, g.productions@[rule as int].head) matches Some(a)
    &&& a.action == ActionType::Goto
}

/// The effect of reducing rule `rule_idx` on `st` in state `state`, with
/// trimming switched on or off, giving stack `st2`, state `state2` and
/// result `r`.  Without a Goto on the head below the body nothing moves and
/// the result is `InternalError`.  Otherwise the body is popped and the
/// stack below it kept; on top comes a token of the rule's head tagged with
/// the Goto target: a new token holding `Reduction(rule, body in order)`, or,
/// when trimming a rule whose body is a single nonterminal, that single body
/// token relabelled (`ReduceTrimmed`).
pub open spec fn reduce_outcome(
    g: &EnhancedGrammarTable,
    st: Seq<Token>,
    state: usize,
    trim_on: bool,
    rule_idx: usize,
    st2: Seq<Token>,
    state2: usize,
    r: GPParseResult,
) -> bool {
    let rule = g.productions@[rule_idx as int];
    let n = rule.symbols@.len() as int;
    let trim = trims(g, trim_on, rule_idx);
    if !goto_after_reduce(g, st, rule_idx) {
        r == GPParseResult::InternalError && st2 == st && state2 == state
    } else {
        let target = goto_target(g, st, rule_idx);
        let top = st2.last();
        &&& r == if trim { GPParseResult::ReduceTrimmed } else { GPParseResult::Reduce }
        &&& state2 == target
        &&& st2.len() == st.len() - n + 1
        &&& st2.subrange(0, st.len() - n) == st.subrange(0, st.len() - n)
        &&& top.symbol == rule.head
        &&& top.kind == g.symbols@[rule.head as int].kind
        &&& top.lalr_state == target
        &&& trim ==> top.reduction == st.last().reduction && top.text == st.last().text && top.pos == st.last().pos
        &&& !trim ==> (top.reduction matches Some(red) && red.rule == rule_idx
            && red.tokens@ == st.subrange(st.len() - n, st.len() as int))
    }
}

/// Whether reducing by `rule_idx` trims: trimming is on and the rule's body
/// is a single nonterminal.
pub open spec fn trims(g: &EnhancedGrammarTable, trim_on: bool, rule_idx: usize) -> bool {
    let rule = g.productions@[rule_idx as int];
    trim_on && rule.symbols@.len() == 1 && g.symbols@[rule.symbols@[0] as int].kind == SymbolType::NonTerminal
}

/// Whether acceptance is well placed: only the sentinel and one token are on
/// the stack, and the lookahead is an end-of-file token without text.
pub open spec fn accept_ready(st: Seq<Token>, t: Token) -> bool {
    st.len() == 2 && t.kind == SymbolType::EndOfFile && t.text@.len() == 0
}

/// The state reached by that Goto.
pub open spec fn goto_target(g: &EnhancedGrammarTable, stack: Seq<Token>, rule: usize) -> usize {
    let n = g.productions@[rule as int].symbols@.len();
    let below = stack[stack.len() - 1 - n];
    action_for(g.lalr_states@[below.lalr_state as int].actions@, g.productions@[rule as int].head).unwrap().target_idx
}

/// The table-driven LALR(1) parser.  It owns the grammar, the source reader,
/// the parse stack (a sentinel at the bottom), the pending lookahead token,
/// the stack of open lexical groups and the expected symbols of the last
/// syntax error.
pub struct Parser {
    grammar: EnhancedGrammarTable,
    source: SourceReader,
    curr_state: usize,
    stack: Vec<Token>,
    groups: Vec<OpenGroup>,
    expected_symbols: Vec<usize>,
    have_reduction: bool,
    trim_reductions: bool,
    initialized: bool,
    input: Option<Token>,
    curr_position: Position,
    last_rule: usize,
    accepted: bool,
    read_text: Ghost<Seq<char>>,
    steps: Ghost<nat>,
}

impl Parser {
    pub closed spec fn grammar_spec(&self) -> &EnhancedGrammarTable {
        &self.grammar
    }

    pub closed spec fn source_spec(&self) -> SourceReader {
        self.source
    }

    pub closed spec fn state_spec(&self) -> usize {
        self.curr_state
    }

    pub closed spec fn stack_spec(&self) -> Seq<Token> {
        self.stack@
    }

    pub closed spec fn open_groups(&self) -> int {
        self.groups@.len() as int
    }

    /// A loaded parser at the start of its source: nothing consumed, nothing
    /// pending, no group open, not accepted.
    pub open spec fn fresh(&self) -> bool {
        &&& self.initialized_spec()
        &&& self.at_start()
    }

    /// The state at the start of a source: only the sentinel (tagged with the
    /// start state) on the stack, the machine in the start state, nothing
    /// consumed, nothing pending or read, no group open, not accepted, and
    /// the position at line 1, column 1.
    pub open spec fn at_start(&self) -> bool {
        let init = self.grammar_spec().initial_states.lalr as usize;
        &&& self.state_spec() == init
        &&& self.stack_spec().len() == 1
        &&& self.stack_spec()[0].lalr_state == init
        &&& self.stack_spec()[0].reduction.is_none()
        &&& self.source_spec().consumed() == 0
        &&& self.source_spec().pos() == (Position { line: 1, col: 1 })
        &&& self.input_spec().is_none()
        &&& self.frames_spec() == Seq::<GroupFrame>::empty()
        &&& !self.accepted_spec()
        &&& self.expected_spec().len() == 0
        &&& self.read_text_spec().len() == 0
        &&& self.position_spec() == (Position { line: 1, col: 1 })
    }

    /// The number of steps taken so far.
    pub closed spec fn steps_spec(&self) -> nat {
        self.steps@
    }

    /// The open lexical groups, outermost first.
    pub closed spec fn frames_spec(&self) -> Seq<GroupFrame> {
        frames_of(self.groups@)
    }

    pub closed spec fn input_spec(&self) -> Option<Token> {
        self.input
    }

    pub closed spec fn expected_spec(&self) -> Seq<usize> {
        self.expected_symbols@
    }

    pub closed spec fn position_spec(&self) -> Position {
        self.curr_position
    }

    pub closed spec fn last_rule_spec(&self) -> usize {
        self.last_rule
    }

    /// Whether rules whose body is a single nonterminal leave no node in the
    /// tree.
    pub closed spec fn trim_spec(&self) -> bool {
        self.trim_reductions
    }

    /// The texts of the non-noise tokens read since the start, in order.
    pub closed spec fn read_text_spec(&self) -> Seq<char> {
        self.read_text@
    }

    pub closed spec fn have_reduction_spec(&self) -> bool {
        self.have_reduction
    }

    pub closed spec fn accepted_spec(&self) -> bool {
        self.accepted
    }

    pub closed spec fn initialized_spec(&self) -> bool {
        self.initialized
    }

    /// The parser's invariant: tables and reader are well formed, every state
    /// on the stack exists, the sentinel is in place, and every reduction on
    /// the stack holds one token per body symbol of its rule.
    pub closed spec fn wf(&self) -> bool {
        &&& self.grammar.wf()
        &&& self.source.wf()
        &&& self.curr_state < self.grammar.lalr_states@.len()
        &&& self.stack@.len() >= 1
        &&& forall|i: int| 0 <= i < self.stack@.len() ==> (#[trigger] self.stack@[i]).lalr_state < self.grammar.lalr_states@.len()
        &&& forall|i: int| 0 <= i < self.stack@.len() ==> reduction_fits(&self.grammar, #[trigger] self.stack@[i])
        &&& forall|i: int| 0 <= i < self.stack@.len() ==> token_fits(&self.grammar, #[trigger] self.stack@[i])
        &&& forall|i: int| 0 <= i < self.groups@.len() ==> (#[trigger] self.groups@[i]).group < self.grammar.groups@.len()
            && self.groups@[i].token.reduction.is_none()
        &&& (self.input matches Some(t) ==> t.reduction.is_none())
        &&& self.stack@[0].text@.len() == 0 && self.stack@[0].reduction.is_none()
        &&& tokens_leaves(self.stack@) + pending_text(self.input) == self.read_text@
        &&& (self.accepted ==> (self.input matches Some(t) && t.kind != SymbolType::Noise && t.kind != SymbolType::Error
            && accept_ready(self.stack@, t)
            && (action_for(self.grammar.lalr_states@[self.curr_state as int].actions@, t.symbol) matches Some(a)
            && a.action == ActionType::Accept)))
    }

    /// A parser for `grammar` with no source yet.
    pub fn new(grammar: EnhancedGrammarTable) -> (r: Parser)
        requires
            grammar.wf(),
        ensures
            r.wf(),
            *r.grammar_spec() == grammar,
            !r.initialized_spec(),
            r.state_spec() == grammar.initial_states.lalr as usize,
            r.stack_spec().len() == 1,
            r.stack_spec()[0].lalr_state == grammar.initial_states.lalr as usize,
            r.source_spec().text().len() == 0,
            r.at_start(),
    {
        let init = grammar.initial_states.lalr as usize;
        let nsym = grammar.symbols.0.len();
        let sentinel = Parser::sentinel(nsym, init);
        let mut stack: Vec<Token> = Vec::new();
        stack.push(sentinel);
        proof {
            lemma_tokens_leaves_push(Seq::empty(), stack@[0]);
            assert(Seq::<Token>::empty().push(stack@[0]) =~= stack@);
            assert(tokens_leaves(stack@) =~= Seq::<char>::empty());
        }
        let source = SourceReader::new(String::new());
        let r = Parser {
            grammar,
            source,
            curr_state: init,
            stack,
            groups: Vec::new(),
            expected_symbols: Vec::new(),
            have_reduction: false,
            trim_reductions: false,
            initialized: false,
            input: None,
            curr_position: Position::new(),
            last_rule: 0,
            accepted: false,
            read_text: Ghost(Seq::empty()),
            steps: Ghost(0),
        };
        assert(r.frames_spec() =~= Seq::<GroupFrame>::empty());
        r
    }

    /// The token at the bottom of the stack, tagged with the start state.
    fn sentinel(nsym: usize, init: usize) -> (r: Token)
        ensures
            r.lalr_state == init,
            r.reduction.is_none(),
            r.text@.len() == 0,
    {
        let mut t = Token::new(nsym, SymbolType::Undefined, String::new());
        t.lalr_state = init;
        t
    }

    /// Gives the parser a source text and returns to the initial state.
    pub fn load_source(&mut self, source: String)
        requires
            old(self).wf(),
            source@.len() < usize::MAX,
        ensures
            final(self).wf(),
            final(self).initialized_spec(),
            final(self).source_spec().text() == source@,
            final(self).source_spec().consumed() == 0,
            final(self).grammar_spec() == old(self).grammar_spec(),
            final(self).state_spec() == old(self).grammar_spec().initial_states.lalr as usize,
            final(self).stack_spec().len() == 1,
            final(self).trim_spec() == old(self).trim_spec(),
            final(self).fresh(),
    {
        self.source.load(source);
        self.reset();
        self.initialized = true;
    }

    /// Returns to the initial state: the stacks hold only the sentinel, no
    /// group is open, no token is pending, and the source is read again from
    /// its start.  The grammar and the source text are kept.
    pub fn reset(&mut self)
        requires
            old(self).wf(),
        ensures
            final(self).wf(),
            final(self).grammar_spec() == old(self).grammar_spec(),
            final(self).initialized_spec() == old(self).initialized_spec(),
            final(self).trim_spec() == old(self).trim_spec(),
            final(self).state_spec() == old(self).grammar_spec().initial_states.lalr as usize,
            final(self).stack_spec().len() == 1,
            final(self).stack_spec()[0].lalr_state == old(self).grammar_spec().initial_states.lalr as usize,
            final(self).stack_spec()[0].reduction.is_none(),
            final(self).open_groups() == 0,
            final(self).input_spec().is_none(),
            final(self).expected_spec().len() == 0,
            !final(self).accepted_spec(),
            final(self).source_spec().text() == old(self).source_spec().text(),
            final(self).source_spec().consumed() == 0,
            final(self).source_spec().pos() == (Position { line: 1, col: 1 }),
            final(self).position_spec() == (Position { line: 1, col: 1 }),
            final(self).at_start(),
            final(self).steps_spec() == old(self).steps_spec(),
    {
        self.source.rewind();
        let init = self.grammar.initial_states.lalr as usize;
        self.curr_state = init;
        let nsym = self.grammar.symbols.0.len();
        let mut stack: Vec<Token> = Vec::new();
        stack.push(Parser::sentinel(nsym, init));
        proof {
            lemma_tokens_leaves_push(Seq::empty(), stack@[0]);
            assert(Seq::<Token>::empty().push(stack@[0]) =~= stack@);
            assert(tokens_leaves(stack@) =~= Seq::<char>::empty());
        }
        self.stack = stack;
        self.read_text = Ghost(Seq::empty());
        self.groups = Vec::new();
        assert(self.frames_spec() =~= Seq::<GroupFrame>::empty());
        self.expected_symbols = Vec::new();
        self.have_reduction = false;
        self.input = None;
        self.curr_position = Position::new();
        self.accepted = false;
    }

    /// Same as `reset`.
    pub fn clear(&mut self)
        requires
            old(self).wf(),
        ensures
            final(self).wf(),
            final(self).grammar_spec() == old(self).grammar_spec(),
            final(self).initialized_spec() == old(self).initialized_spec(),
            final(self).trim_spec() == old(self).trim_spec(),
            final(self).source_spec().text() == old(self).source_spec().text(),
            final(self).at_start(),
    {
        self.reset();
    }

    /// The first group that starts with symbol `sym`.
    fn group_starting(&self, sym: usize) -> (r: Option<usize>)
        ensures
            r == group_starting_from(&self.grammar, sym, 0),
            r.is_some() ==> r.unwrap() < self.grammar.groups@.len(),
    {
        let mut i: usize = 0;
        while i < self.grammar.groups.0.len()
            invariant
                0 <= i <= self.grammar.groups@.len(),
                group_starting_from(&self.grammar, sym, 0) == group_starting_from(&self.grammar, sym, i as int),
            decreases self.grammar.groups@.len() - i,
        {
            if self.grammar.groups.0[i].start_idx == sym {
                return Some(i);
            }
            i = i + 1;
        }
        None
    }

    /// Produces the next token for the LALR machine and consumes its text.
    /// A group start opens a lexical group; the text up to the matching end
    /// is then gathered into one token of the group's container symbol.  The
    /// source ending inside a group returns the end-of-file token with the
    /// group still open.
    #[verifier::rlimit(80)]
    pub fn produce_token(&mut self) -> (r: Token)
        requires
            old(self).wf(),
        ensures
            final(self).wf(),
            final(self).grammar_spec() == old(self).grammar_spec(),
            final(self).stack_spec() == old(self).stack_spec(),
            final(self).state_spec() == old(self).state_spec(),
            final(self).input_spec() == old(self).input_spec(),
            final(self).initialized_spec() == old(self).initialized_spec(),
            final(self).trim_spec() == old(self).trim_spec(),
            final(self).last_rule_spec() == old(self).last_rule_spec(),
            final(self).accepted_spec() == old(self).accepted_spec(),
            final(self).expected_spec() == old(self).expected_spec(),
            final(self).position_spec() == old(self).position_spec(),
            final(self).read_text_spec() == old(self).read_text_spec(),
            final(self).steps_spec() == old(self).steps_spec(),
            final(self).source_spec().text() == old(self).source_spec().text(),
            final(self).source_spec().consumed() >= old(self).source_spec().consumed(),
            r.reduction.is_none(),
            final(self).open_groups() > 0 ==> r.kind == SymbolType::EndOfFile,
            ({
                let out = produce_from(
                    old(self).grammar_spec(),
                    old(self).source_spec().text(),
                    old(self).source_spec().consumed(),
                    old(self).frames_spec(),
                );
                &&& r.symbol == out.0.symbol
                &&& r.kind == out.0.kind
                &&& r.text@ == out.0.text
                &&& r.pos == out.0.pos
                &&& final(self).source_spec().consumed() == out.1
                &&& final(self).frames_spec() == out.2
            }),
            old(self).open_groups() == 0 && final(self).open_groups() == 0 ==> r.text@ == old(self).source_spec().text().subrange(
                old(self).source_spec().consumed(),
                final(self).source_spec().consumed(),
            ),
            ({
                let rest = remaining(&old(self).source_spec());
                let s = scan(old(self).grammar_spec(), rest);
                old(self).open_groups() == 0 && !(s.1 == SymbolType::GroupStart
                    && group_starting_from(old(self).grammar_spec(), s.0 as usize, 0).is_some())
                ==> r.symbol == s.0 && r.kind == s.1 && r.text@ == rest.subrange(0, s.2)
                    && r.pos == old(self).source_spec().pos()
                    && final(self).source_spec().consumed() == old(self).source_spec().consumed() + s.2
                    && final(self).open_groups() == 0
            }),
    {
        let ghost mut first = true;
        proof {
            self.source.lemma_wf();
            if self.groups@.len() == 0 {
                let c = self.source.consumed();
                assert(frames_of(self.groups@) =~= Seq::<GroupFrame>::empty());
                assert(frames_text(Seq::<GroupFrame>::empty()) == Seq::<char>::empty());
                assert(self.source.text().subrange(c, c) =~= Seq::<char>::empty());
                lemma_produced_text(&self.grammar, self.source.text(), c, frames_of(self.groups@), c);
            }
        }
        loop
            invariant
                old(self).groups@.len() == 0 ==> ({
                    let out = produce_from(&old(self).grammar, old(self).source.text(), old(self).source.consumed(), frames_of(old(self).groups@));
                    out.2.len() == 0 ==> out.0.text == old(self).source.text().subrange(old(self).source.consumed(), out.1)
                }),
                self.wf(),
                self.grammar == old(self).grammar,
                self.stack@ == old(self).stack@,
                self.curr_state == old(self).curr_state,
                self.input == old(self).input,
                self.initialized == old(self).initialized,
                self.trim_reductions == old(self).trim_reductions,
                self.last_rule == old(self).last_rule,
                self.accepted == old(self).accepted,
                self.read_text == old(self).read_text,
                self.steps == old(self).steps,
                self.expected_symbols@ == old(self).expected_symbols@,
                self.curr_position == old(self).curr_position,
                self.source.text() == old(self).source.text(),
                self.source.consumed() >= old(self).source.consumed(),
                first ==> self.source == old(self).source && self.groups@.len() == old(self).groups@.len(),
                produce_from(&self.grammar, self.source.text(), old(self).source.consumed(), frames_of(old(self).groups@))
                    == produce_from(&self.grammar, self.source.text(), self.source.consumed(), frames_of(self.groups@)),
                !first ==> old(self).groups@.len() > 0 || ({
                    let s = scan(&old(self).grammar, remaining(&old(self).source));
                    s.1 == SymbolType::GroupStart && group_starting_from(&old(self).grammar, s.0 as usize, 0).is_some()
                }),
            decreases self.source.text().len() - self.source.consumed(), self.groups@.len(),
        {
            proof {
                self.source.lemma_wf();
                lemma_scan_bounds(&self.grammar, remaining(&self.source));
            }
            let ghost c0 = self.source.consumed();
            let ghost f0 = frames_of(self.groups@);
            let ghost gs0 = self.groups@;
            let ghost s = self.source.text();
            let ghost rest = remaining(&self.source);
            let ghost sc = scan(&self.grammar, rest);
            proof {
                lemma_position_bounds(s, c0);
                assert(self.source.pos() == pos_at(s, c0));
            }
            let read = input_token(&self.grammar, &mut self.source);
            let len = read.text.as_str().unicode_len();
            let start_group = if read.kind == SymbolType::GroupStart {
                self.group_starting(read.symbol)
            } else {
                None
            };
            let nest = match start_group {
                Some(gi) => {
                    if self.groups.len() == 0 {
                        true
                    } else {
                        let outermost = self.groups[0].group;
                        self.grammar.groups.0[outermost].permits_nested(gi)
                    }
                },
                None => false,
            };
            if nest {
                let gi = start_group.unwrap();
                self.source.consume_buf(len);
                let ghost fr = GroupFrame { group: gi, symbol: read.symbol, kind: read.kind, text: read.text@, pos: read.pos };
                self.groups.push(OpenGroup { group: gi, token: read });
                proof {
                    assert(frames_of(self.groups@) =~= f0.push(fr));
                    assert(group_step(&self.grammar, s, c0, f0) == GroupStep::Next(self.source.consumed(), frames_of(self.groups@)));
                }
            } else if self.groups.len() == 0 {
                proof {
                    if first {
                        let rest = remaining(&old(self).source);
                        let s = scan(&old(self).grammar, rest);
                        assert(read.symbol == s.0);
                        assert(read.text@ == rest.subrange(0, s.2));
                        assert(len == s.2);
                    }
                }
                self.source.consume_buf(len);
                return read;
            } else {
                let top_group = self.groups[self.groups.len() - 1].group;
                let end_sym = self.grammar.groups.0[top_group].end_idx;
                if end_sym == read.symbol && read.kind != SymbolType::EndOfFile {
                    let mut popped = self.groups.pop().unwrap();
                    if self.grammar.groups.0[top_group].ending_mode == EndingMode::Closed {
                        popped.token.text.append(read.text.as_str());
                        self.source.consume_buf(len);
                    }
                    if self.groups.len() == 0 {
                        let container = self.grammar.groups.0[top_group].container_idx;
                        let mut t = popped.token;
                        t.symbol = container;
                        t.kind = self.grammar.symbols.0[container].kind;
                        return t;
                    } else {
                        let mut outer = self.groups.pop().unwrap();
                        let ghost of = frame_of(outer);
                        outer.token.text.append(popped.token.text.as_str());
                        self.groups.push(outer);
                        proof {
                            assert(f0[f0.len() - 2] == of);
                            assert(frames_of(self.groups@) =~= f0.drop_last().drop_last().push(
                                GroupFrame { text: of.text + popped.token.text@, ..of },
                            ));
                            assert(group_step(&self.grammar, s, c0, f0) == GroupStep::Next(self.source.consumed(), frames_of(self.groups@)));
                        }
                    }
                } else if read.kind == SymbolType::EndOfFile {
                    return read;
                } else {
                    let mut top = self.groups.pop().unwrap();
                    let ghost tf = frame_of(top);
                    if self.grammar.groups.0[top_group].advance_mode == AdvanceMode::Token {
                        top.token.text.append(read.text.as_str());
                        self.source.consume_buf(len);
                    } else {
                        let one = self.source.get_buf_slice_to(1);
                        assert(one@ =~= rest.subrange(0, 1));
                        top.token.text.append(one.as_str());
                        self.source.consume_buf(1);
                    }
                    let ghost nf = frame_of(top);
                    self.groups.push(top);
                    proof {
                        assert(f0.last() == tf);
                        assert(sc.1 != SymbolType::EndOfFile);
                        assert(rest.len() > 0);
                        assert(f0.len() > 0 && f0.last().group == top_group);
                        assert(frames_of(self.groups@) =~= f0.drop_last().push(nf));
                        assert(group_step(&self.grammar, s, c0, f0) == GroupStep::Next(self.source.consumed(), frames_of(self.groups@)));
                    }
                }
            }
            proof {
                first = false;
            }
        }
    }
}


proof fn lemma_action_from_in(actions: Seq<LALRAction>, sym: usize, i: int)
    requires
        0 <= i,
    ensures
        action_from(actions, sym, i) is Some ==> exists|j: int| i <= j < actions.len() && actions[j] == action_from(actions, sym, i).unwrap() && actions[j].symbol == sym,
    decreases actions.len() - i,
{
    if i < actions.len() && actions[i].symbol != sym {
        lemma_action_from_in(actions, sym, i + 1);
    }
}

/// An action found in a state of a well-formed grammar refers to entries
/// that exist.
pub proof fn lemma_action_ok(g: &EnhancedGrammarTable, state: int, sym: usize)
    requires
        g.wf(),
        0 <= state < g.lalr_states@.len(),
    ensures
        action_for(g.lalr_states@[state].actions@, sym) is Some ==> action_ok(
            action_for(g.lalr_states@[state].actions@, sym).unwrap(),
            g.symbols@.len(),
            g.productions@.len(),
            g.lalr_states@.len(),
        ) && action_for(g.lalr_states@[state].actions@, sym).unwrap().symbol == sym,
{
    lemma_action_from_in(g.lalr_states@[state].actions@, sym, 0);
    assert(lalr_state_ok(g.lalr_states@[state], g.symbols@.len(), g.productions@.len(), g.lalr_states@.len()));
}

impl Parser {
    /// The expected symbols of the current state: those on which it shifts.
    fn syntax_error(&mut self) -> (r: GPParseResult)
        requires
            old(self).wf(),
        ensures
            r == GPParseResult::SyntaxError,
            final(self).expected_symbols@ == shift_symbols(old(self).grammar.lalr_states@[old(self).curr_state as int].actions@),
            final(self).grammar == old(self).grammar,
            final(self).source == old(self).source,
            final(self).curr_state == old(self).curr_state,
            final(self).stack == old(self).stack,
            final(self).groups == old(self).groups,
            final(self).input == old(self).input,
            final(self).curr_position == old(self).curr_position,
            final(self).last_rule == old(self).last_rule,
            final(self).accepted == old(self).accepted,
            final(self).initialized == old(self).initialized,
            final(self).trim_reductions == old(self).trim_reductions,
            final(self).read_text == old(self).read_text,
            final(self).steps == old(self).steps,
    {
        let actions = &self.grammar.lalr_states.0[self.curr_state].actions;
        let mut expected: Vec<usize> = Vec::new();
        let mut i: usize = 0;
        while i < actions.len()
            invariant
                0 <= i <= actions@.len(),
                expected@ == shift_symbols(actions@.subrange(0, i as int)),
            decreases actions@.len() - i,
        {
            let a = actions[i];
            if a.action == ActionType::Shift {
                expected.push(a.symbol);
            }
            i = i + 1;
            assert(actions@.subrange(0, i as int).drop_last() =~= actions@.subrange(0, i - 1));
        }
        assert(actions@.subrange(0, actions@.len() as int) =~= actions@);
        self.expected_symbols = expected;
        GPParseResult::SyntaxError
    }

    /// Reduces by rule `rule_idx`: pops the body, pushes the head (or, when
    /// trimming a rule whose body is one nonterminal, relabels the single
    /// body token), and moves by the Goto of the state below the body.
    fn reduce(&mut self, rule_idx: usize) -> (r: GPParseResult)
        requires
            old(self).wf(),
            !old(self).accepted,
            rule_idx < old(self).grammar.productions@.len(),
        ensures
            final(self).wf(),
            final(self).grammar == old(self).grammar,
            final(self).source == old(self).source,
            final(self).groups == old(self).groups,
            final(self).input == old(self).input,
            final(self).initialized == old(self).initialized,
            final(self).trim_reductions == old(self).trim_reductions,
            final(self).accepted == old(self).accepted,
            final(self).curr_position == old(self).curr_position,
            final(self).expected_symbols == old(self).expected_symbols,
            final(self).read_text == old(self).read_text,
            final(self).steps == old(self).steps,
            reduce_outcome(
                &old(self).grammar,
                old(self).stack@,
                old(self).curr_state,
                old(self).trim_reductions,
                rule_idx,
                final(self).stack@,
                final(self).curr_state,
                r,
            ),
            goto_after_reduce(&old(self).grammar, old(self).stack@, rule_idx) ==> final(self).last_rule == rule_idx,
            !goto_after_reduce(&old(self).grammar, old(self).stack@, rule_idx) ==> final(self).last_rule == old(self).last_rule,
    {
        let ghost st = self.stack@;
        let rule = &self.grammar.productions.0[rule_idx];
        proof {
            assert(rule_in_range(self.grammar.productions@[rule_idx as int], self.grammar.symbols@.len()));
        }
        let n = rule.symbols.len();
        let head = rule.head;
        if n >= self.stack.len() {
            return GPParseResult::InternalError;
        }
        let below = self.stack[self.stack.len() - 1 - n].lalr_state;
        let target = match self.grammar.lalr_states.0[below].find_action(head) {
            Some(a) => {
                if a.action == ActionType::Goto {
                    proof {
                        lemma_action_ok(&self.grammar, below as int, head);
                    }
                    a.target_idx
                } else {
                    return GPParseResult::InternalError;
                }
            },
            None => {
                return GPParseResult::InternalError;
            },
        };
        let trim = self.trim_reductions && rule.has_only_nonterminal(&self.grammar.symbols);
        let head_kind = self.grammar.symbols.0[head].kind;
        let mut t: Token;
        if trim {
            t = self.stack.pop().unwrap();
            proof {
                lemma_tokens_leaves_push(self.stack@, t);
                assert(self.stack@.push(t) =~= st);
            }
            t.symbol = head;
            t.kind = head_kind;
        } else {
            let base = self.stack.len() - n;
            let body = self.stack.split_off(base);
            proof {
                lemma_tokens_leaves_append(self.stack@, body@);
                assert(self.stack@ + body@ =~= st);
            }
            t = Token::new(head, head_kind, String::new());
            t.pos = self.curr_position;
            let ghost body_seq = body@;
            t.reduction = Some(Box::new(Reduction { tokens: body, rule: rule_idx }));
            proof {
                lemma_reduction_leaves(*t.reduction.unwrap());
                let red = *t.reduction.unwrap();
                assert forall|j: int| 0 <= j < red.tokens@.len() implies token_fits(&self.grammar, #[trigger] red.tokens@[j]) by {
                    assert(red.tokens@[j] == st[st.len() - n + j]);
                };
                lemma_fits_from(&self.grammar, red, 0);
            }
            self.have_reduction = true;
        }
        t.lalr_state = target;
        let ghost below = self.stack@;
        proof {
            lemma_tokens_leaves_push(below, t);
        }
        self.stack.push(t);
        assert(below.push(t) =~= self.stack@);
        self.curr_state = target;
        self.last_rule = rule_idx;
        proof {
            assert forall|i: int| 0 <= i < self.stack@.len() implies (#[trigger] self.stack@[i]).lalr_state
                < self.grammar.lalr_states@.len() && reduction_fits(&self.grammar, self.stack@[i])
                && token_fits(&self.grammar, self.stack@[i]) by {
                if i < self.stack@.len() - 1 {
                    assert(self.stack@[i] == st[i]);
                } else if trim {
                    assert(token_fits(&self.grammar, st[st.len() - 1]));
                }
            }
            assert(self.stack@.subrange(0, st.len() - n) =~= st.subrange(0, st.len() - n));
        }
        if trim {
            GPParseResult::ReduceTrimmed
        } else {
            GPParseResult::Reduce
        }
    }

    /// Performs the LALR action of the current state on the pending token.
    pub fn parse_token(&mut self) -> (r: GPParseResult)
        requires
            old(self).wf(),
            old(self).input_spec().is_some(),
            old(self).input_spec().unwrap().kind != SymbolType::Noise,
            old(self).input_spec().unwrap().kind != SymbolType::Error,
        ensures
            final(self).wf(),
            final(self).accepted_spec() == (old(self).accepted_spec() || r == GPParseResult::Accept),
            final(self).grammar_spec() == old(self).grammar_spec(),
            final(self).source_spec() == old(self).source_spec(),
            final(self).open_groups() == old(self).open_groups(),
            final(self).initialized_spec() == old(self).initialized_spec(),
            final(self).trim_spec() == old(self).trim_spec(),
            final(self).position_spec() == old(self).position_spec(),
            final(self).read_text_spec() == old(self).read_text_spec(),
            final(self).frames_spec() == old(self).frames_spec(),
            final(self).steps_spec() == old(self).steps_spec(),
            ({
                let g = old(self).grammar_spec();
                let tok = old(self).input_spec().unwrap();
                let st = old(self).stack_spec();
                match action_for(g.lalr_states@[old(self).state_spec() as int].actions@, tok.symbol) {
                    Some(a) => if a.action == ActionType::Shift {
                        &&& r == GPParseResult::Shift
                        &&& final(self).input_spec().is_none()
                        &&& final(self).state_spec() == a.target_idx
                        &&& final(self).stack_spec().len() == st.len() + 1
                        &&& final(self).stack_spec().drop_last() == st
                        &&& final(self).stack_spec().last().lalr_state == a.target_idx
                        &&& final(self).stack_spec().last().symbol == tok.symbol
                        &&& final(self).stack_spec().last().kind == tok.kind
                        &&& final(self).stack_spec().last().text == tok.text
                        &&& final(self).stack_spec().last().reduction == tok.reduction
                        &&& final(self).stack_spec().last().pos == tok.pos
                    } else if a.action == ActionType::Reduce {
                        &&& final(self).input_spec() == old(self).input_spec()
                        &&& reduce_outcome(
                            g,
                            st,
                            old(self).state_spec(),
                            old(self).trim_spec(),
                            a.target_idx,
                            final(self).stack_spec(),
                            final(self).state_spec(),
                            r,
                        )
                        &&& (r == GPParseResult::Reduce || r == GPParseResult::ReduceTrimmed) ==> goto_after_reduce(g, st, a.target_idx)
                            && final(self).last_rule_spec() == a.target_idx
                            && final(self).state_spec() == goto_target(g, st, a.target_idx)
                            && final(self).stack_spec().len() == st.len() - g.productions@[a.target_idx as int].symbols@.len() + 1
                        &&& r == GPParseResult::InternalError <==> !goto_after_reduce(g, st, a.target_idx)
                        &&& (r == GPParseResult::Reduce || r == GPParseResult::ReduceTrimmed || r == GPParseResult::InternalError)
                    } else if a.action == ActionType::Accept {
                        &&& r == if accept_ready(st, tok) { GPParseResult::Accept } else { GPParseResult::InternalError }
                        &&& final(self).accepted_spec() == (old(self).accepted_spec() || accept_ready(st, tok))
                        &&& final(self).state_spec() == old(self).state_spec()
                        &&& final(self).stack_spec() == st
                        &&& final(self).input_spec() == old(self).input_spec()
                    } else {
                        &&& r == GPParseResult::SyntaxError
                        &&& final(self).state_spec() == old(self).state_spec()
                        &&& final(self).expected_spec() == shift_symbols(g.lalr_states@[old(self).state_spec() as int].actions@)
                        &&& final(self).stack_spec() == st
                        &&& final(self).input_spec() == old(self).input_spec()
                    },
                    None => {
                        &&& r == GPParseResult::SyntaxError
                        &&& final(self).state_spec() == old(self).state_spec()
                        &&& final(self).expected_spec() == shift_symbols(g.lalr_states@[old(self).state_spec() as int].actions@)
                        &&& final(self).stack_spec() == st
                        &&& final(self).input_spec() == old(self).input_spec()
                    },
                }
            }),
    {
        let sym = self.input.as_ref().unwrap().symbol;
        self.have_reduction = false;
        proof {
            lemma_action_ok(&self.grammar, self.curr_state as int, sym);
        }
        match self.grammar.lalr_states.0[self.curr_state].find_action(sym) {
            Some(a) => {
                if a.action == ActionType::Shift {
                    let ghost st = self.stack@;
                    let mut tok = self.input.take().unwrap();
                    tok.lalr_state = a.target_idx;
                    self.stack.push(tok);
                    self.curr_state = a.target_idx;
                    proof {
                        lemma_tokens_leaves_push(st, self.stack@.last());
                        assert(st.push(self.stack@.last()) =~= self.stack@);
                        assert(self.stack@.drop_last() =~= st);
                        assert forall|i: int| 0 <= i < self.stack@.len() implies (#[trigger] self.stack@[i]).lalr_state
                            < self.grammar.lalr_states@.len() && reduction_fits(&self.grammar, self.stack@[i]) by {
                            if i < self.stack@.len() - 1 {
                                assert(self.stack@[i] == st[i]);
                            }
                        }
                    }
                    GPParseResult::Shift
                } else if a.action == ActionType::Reduce {
                    self.reduce(a.target_idx)
                } else if a.action == ActionType::Accept {
                    let ready = self.stack.len() == 2 && self.input.as_ref().unwrap().kind == SymbolType::EndOfFile
                        && self.input.as_ref().unwrap().text.as_str().unicode_len() == 0;
                    if ready {
                        self.have_reduction = true;
                        self.accepted = true;
                        GPParseResult::Accept
                    } else {
                        GPParseResult::InternalError
                    }
                } else {
                    self.syntax_error()
                }
            },
            None => self.syntax_error(),
        }
    }

    /// Takes the next token from the tokenizer into the pending slot.  A
    /// source that ends inside an open group is a group error.
    fn read_token(&mut self) -> (r: GPMessage)
        requires
            old(self).wf(),
            !old(self).accepted,
            old(self).input.is_none(),
        ensures
            final(self).wf(),
            final(self).grammar == old(self).grammar,
            final(self).stack@ == old(self).stack@,
            final(self).curr_state == old(self).curr_state,
            final(self).initialized == old(self).initialized,
            final(self).trim_reductions == old(self).trim_reductions,
            final(self).accepted == old(self).accepted,
            final(self).last_rule == old(self).last_rule,
            final(self).expected_symbols@ == old(self).expected_symbols@,
            final(self).source.text() == old(self).source.text(),
            (final(self).input matches Some(t) && final(self).curr_position == t.pos),
            r == GPMessage::GroupError <==> final(self).groups@.len() > 0,
            r == GPMessage::GroupError || r == GPMessage::TokenRead,
            r == GPMessage::GroupError ==> final(self).input.unwrap().kind == SymbolType::EndOfFile,
            final(self).read_text@ == old(self).read_text@ + pending_text(final(self).input),
            token_read(&old(self).grammar, old(self).source, frames_of(old(self).groups@), final(self)),
            final(self).steps == old(self).steps,
    {
        let tok = self.produce_token();
        self.curr_position = tok.pos;
        let eof_in_group = tok.kind == SymbolType::EndOfFile && self.groups.len() > 0;
        self.read_text = Ghost(self.read_text@ + pending_text(Some(tok)));
        self.input = Some(tok);
        assert(self.stack@ == old(self).stack@);
        if eof_in_group {
            GPMessage::GroupError
        } else {
            GPMessage::TokenRead
        }
    }

    /// Runs the machine until it has one event to report: a token read, a
    /// reduction, acceptance, or an error.  Noise tokens are dropped and
    /// shifts are silent.
    pub fn parse_step(&mut self) -> (r: GPMessage)
        requires
            old(self).wf(),
        ensures
            final(self).wf(),
            final(self).grammar_spec() == old(self).grammar_spec(),
            final(self).initialized_spec() == old(self).initialized_spec(),
            final(self).trim_spec() == old(self).trim_spec(),
            !old(self).initialized_spec() ==> r == GPMessage::NotLoadedError && *final(self) == *old(self),
            old(self).initialized_spec() ==> (final(self).accepted_spec() <==> r == GPMessage::Accept),
            (r == GPMessage::TokenRead || r == GPMessage::GroupError)
                ==> final(self).read_text_spec() == old(self).read_text_spec() + pending_text(final(self).input_spec()),
            !(r == GPMessage::TokenRead || r == GPMessage::GroupError) ==> final(self).read_text_spec() == old(self).read_text_spec(),
            r != GPMessage::Empty,
            r == GPMessage::TokenRead ==> (final(self).input_spec() matches Some(t) && final(self).position_spec() == t.pos),
            r != GPMessage::TokenRead && r != GPMessage::Reduction ==> halt_state(final(self), r),
            old(self).initialized_spec() ==> final(self).steps_spec() == old(self).steps_spec() + 1,
            old(self).initialized_spec() && (r == GPMessage::TokenRead || r == GPMessage::GroupError)
                ==> token_read(old(self).grammar_spec(), old(self).source_spec(), old(self).frames_spec(), final(self)),
            old(self).initialized_spec() ==> (final(self).input_spec() matches Some(t) && final(self).position_spec() == t.pos),
            !(r == GPMessage::TokenRead || r == GPMessage::GroupError) ==> final(self).source_spec() == old(self).source_spec()
                && final(self).frames_spec() == old(self).frames_spec(),
            old(self).initialized_spec() && !(r == GPMessage::TokenRead || r == GPMessage::GroupError)
                ==> final(self).input_spec() == old(self).input_spec(),
            old(self).initialized_spec() && old(self).input_spec().is_none() ==> {
                &&& (r == GPMessage::TokenRead || r == GPMessage::GroupError)
                &&& token_read(old(self).grammar_spec(), old(self).source_spec(), old(self).frames_spec(), final(self))
                &&& final(self).stack_spec() == old(self).stack_spec()
                &&& final(self).state_spec() == old(self).state_spec()
            },
            old(self).initialized_spec() && old(self).input_spec().is_some() ==> ({
                let t = old(self).input_spec().unwrap();
                let g = old(self).grammar_spec();
                let st = old(self).stack_spec();
                if t.kind == SymbolType::Noise {
                    &&& (r == GPMessage::TokenRead || r == GPMessage::GroupError)
                    &&& token_read(g, old(self).source_spec(), old(self).frames_spec(), final(self))
                    &&& final(self).stack_spec() == st
                    &&& final(self).state_spec() == old(self).state_spec()
                } else if t.kind == SymbolType::Error {
                    &&& r == GPMessage::LexicalError
                    &&& final(self).stack_spec() == st
                    &&& final(self).state_spec() == old(self).state_spec()
                    &&& final(self).input_spec() == old(self).input_spec()
                } else {
                    match action_for(g.lalr_states@[old(self).state_spec() as int].actions@, t.symbol) {
                        Some(a) => if a.action == ActionType::Shift {
                            &&& (r == GPMessage::TokenRead || r == GPMessage::GroupError)
                            &&& final(self).state_spec() == a.target_idx
                            &&& final(self).stack_spec().len() == st.len() + 1
                            &&& final(self).stack_spec().drop_last() == st
                            &&& final(self).stack_spec().last().lalr_state == a.target_idx
                            &&& final(self).stack_spec().last().symbol == t.symbol
                            &&& final(self).stack_spec().last().kind == t.kind
                            &&& final(self).stack_spec().last().text == t.text
                            &&& final(self).stack_spec().last().reduction == t.reduction
                            &&& final(self).stack_spec().last().pos == t.pos
                            &&& token_read(g, old(self).source_spec(), old(self).frames_spec(), final(self))
                        } else if a.action == ActionType::Reduce {
                            &&& (r == GPMessage::Reduction || r == GPMessage::InternalError)
                            &&& (r == GPMessage::Reduction <==> goto_after_reduce(g, st, a.target_idx))
                            &&& reduce_outcome(
                                g,
                                st,
                                old(self).state_spec(),
                                old(self).trim_spec(),
                                a.target_idx,
                                final(self).stack_spec(),
                                final(self).state_spec(),
                                if r == GPMessage::InternalError {
                                    GPParseResult::InternalError
                                } else if trims(g, old(self).trim_spec(), a.target_idx) {
                                    GPParseResult::ReduceTrimmed
                                } else {
                                    GPParseResult::Reduce
                                },
                            )
                            &&& r == GPMessage::Reduction ==> final(self).last_rule_spec() == a.target_idx
                            &&& final(self).input_spec() == old(self).input_spec()
                        } else if a.action == ActionType::Accept {
                            &&& r == if accept_ready(st, t) { GPMessage::Accept } else { GPMessage::InternalError }
                            &&& final(self).stack_spec() == st
                            &&& final(self).state_spec() == old(self).state_spec()
                            &&& final(self).input_spec() == old(self).input_spec()
                        } else {
                            &&& r == GPMessage::SyntaxError
                            &&& final(self).stack_spec() == st
                            &&& final(self).state_spec() == old(self).state_spec()
                            &&& final(self).input_spec() == old(self).input_spec()
                        },
                        None => {
                            &&& r == GPMessage::SyntaxError
                            &&& final(self).stack_spec() == st
                            &&& final(self).state_spec() == old(self).state_spec()
                            &&& final(self).input_spec() == old(self).input_spec()
                        },
                    }
                }
            }),
            r == GPMessage::Reduction ==> goto_after_reduce(old(self).grammar_spec(), old(self).stack_spec(), final(self).last_rule_spec())
                && final(self).state_spec() == goto_target(old(self).grammar_spec(), old(self).stack_spec(), final(self).last_rule_spec())
                && final(self).stack_spec().len() == old(self).stack_spec().len()
                - old(self).grammar_spec().productions@[final(self).last_rule_spec() as int].symbols@.len() + 1,
    {
        if !self.initialized {
            return GPMessage::NotLoadedError;
        }
        self.steps = Ghost(self.steps@ + 1);
        if self.input.is_none() {
            return self.read_token();
        }
        let kind = self.input.as_ref().unwrap().kind;
        self.curr_position = self.input.as_ref().unwrap().pos;
        match kind {
            SymbolType::Noise => {
                self.input = None;
                self.read_token()
            },
            SymbolType::Error => GPMessage::LexicalError,
            _ => {
                let res = self.parse_token();
                match res {
                    GPParseResult::Shift => self.read_token(),
                    GPParseResult::Reduce => GPMessage::Reduction,
                    GPParseResult::ReduceTrimmed => GPMessage::Reduction,
                    GPParseResult::Accept => GPMessage::Accept,
                    GPParseResult::SyntaxError => GPMessage::SyntaxError,
                    _ => GPMessage::InternalError,
                }
            },
        }
    }
}


impl Parser {
    /// Steps until the parse halts: on acceptance or on an error, in the
    /// state that `halt_state` describes.  Gives up with `Empty` after
    /// `usize::MAX` steps without halting.
    pub fn parse(&mut self) -> (r: GPMessage)
        requires
            old(self).wf(),
        ensures
            final(self).wf(),
            final(self).grammar_spec() == old(self).grammar_spec(),
            r != GPMessage::TokenRead && r != GPMessage::Reduction,
            r != GPMessage::Empty ==> halt_state(final(self), r),
            old(self).initialized_spec() && r == GPMessage::Empty ==> final(self).steps_spec() == old(self).steps_spec() + usize::MAX,
            old(self).fresh() ==> exists|k: nat| #[trigger] stream_reached(final(self), old(self).source_spec().text(), k),
            old(self).initialized_spec() ==> (r == GPMessage::Accept <==> final(self).accepted_spec()),
            !old(self).initialized_spec() ==> r == GPMessage::NotLoadedError,
            final(self).initialized_spec() == old(self).initialized_spec(),
            final(self).trim_spec() == old(self).trim_spec(),
            old(self).fresh() && old(self).source_spec().text().len() == 0 ==> r != GPMessage::LexicalError
                && r != GPMessage::GroupError && (r == GPMessage::SyntaxError ==> final(self).position_spec() == (Position { line: 1, col: 1 })),
            old(self).fresh() && old(self).source_spec().text().len() == 1 && crate::tokenizer::dfa_move(
                old(self).grammar_spec(),
                old(self).grammar_spec().initial_states.dfa as usize,
                old(self).source_spec().text()[0],
            ).is_none() ==> r == GPMessage::LexicalError && final(self).position_spec() == (Position { line: 1, col: 1 }),
    {
        let ghost empty_src = self.fresh() && self.source.text().len() == 0;
        let ghost bad_char = self.fresh() && self.source.text().len() == 1 && crate::tokenizer::dfa_move(
            &self.grammar,
            self.grammar.initial_states.dfa as usize,
            self.source.text()[0],
        ).is_none();
        proof {
            lemma_empty_source_reads_eof(&self.grammar);
            if bad_char {
                let s = self.source.text();
                assert(s =~= seq![s[0]]);
                lemma_uncovered_char_is_error(&self.grammar, s[0]);
            }
        }
        let mut budget: usize = usize::MAX;
        let ghost mut k: nat = 0;
        proof {
            if self.fresh() {
                assert(nonnoise_text(Seq::<TokenModel>::empty()) == Seq::<char>::empty());
                assert(self.read_text@ =~= Seq::<char>::empty());
                assert(stream_reached(self, self.source.text(), 0));
            }
        }
        while budget > 0
            invariant
                self.wf(),
                self.grammar == old(self).grammar,
                self.initialized == old(self).initialized,
                self.trim_reductions == old(self).trim_reductions,
                !self.initialized ==> budget == usize::MAX,
                budget < usize::MAX ==> !self.accepted,
                self.initialized ==> self.steps@ == old(self).steps@ + (usize::MAX - budget),
                old(self).fresh() ==> stream_reached(self, old(self).source.text(), k),
                empty_src == (old(self).fresh() && old(self).source.text().len() == 0),
                bad_char == (old(self).fresh() && old(self).source.text().len() == 1 && crate::tokenizer::dfa_move(
                    &old(self).grammar,
                    old(self).grammar.initial_states.dfa as usize,
                    old(self).source.text()[0],
                ).is_none()),
                empty_src ==> ({
                    let out = produce_from(&self.grammar, Seq::empty(), 0, Seq::empty());
                    out.0.kind == SymbolType::EndOfFile && out.0.pos == (Position { line: 1, col: 1 }) && out.1 == 0 && out.2.len() == 0
                }),
                empty_src ==> self.source.text().len() == 0 && self.source.consumed() == 0 && self.groups@.len() == 0
                    && (self.input matches Some(t) ==> t.kind == SymbolType::EndOfFile && t.pos == (Position { line: 1, col: 1 })),
                bad_char ==> ({
                    let s = self.source.text();
                    let out = produce_from(&self.grammar, s, 0, Seq::empty());
                    s.len() == 1 && out.0.kind == SymbolType::Error && out.0.pos == (Position { line: 1, col: 1 }) && out.2.len() == 0
                }),
                bad_char ==> (budget == usize::MAX && self.input.is_none() && self.source.consumed() == 0 && self.groups@.len() == 0)
                    || (budget == usize::MAX - 1 && (self.input matches Some(t) && t.kind == SymbolType::Error
                    && t.pos == (Position { line: 1, col: 1 }))),
            decreases budget,
        {
            let ghost before = *self;
            let r = self.parse_step();
            proof {
                if old(self).fresh() && (r == GPMessage::TokenRead || r == GPMessage::GroupError) {
                    let txt = old(self).source.text();
                    let prev = stream_state(&self.grammar, txt, k);
                    let out = produce_from(&self.grammar, txt, prev.1, prev.2);
                    let nxt = stream_state(&self.grammar, txt, k + 1);
                    assert(nxt.0.drop_last() =~= prev.0);
                    assert(nxt.0.last() == out.0);
                    assert(self.read_text@ =~= nonnoise_text(nxt.0));
                    k = k + 1;
                }
                if old(self).fresh() {
                    assert(stream_reached(self, old(self).source.text(), k));
                }
            }
            proof {
                if empty_src || bad_char {
                    assert(frames_of(before.groups@).len() == before.groups@.len());
                    assert(frames_of(self.groups@).len() == self.groups@.len());
                    if frames_of(before.groups@).len() == 0 {
                        assert(frames_of(before.groups@) =~= Seq::<GroupFrame>::empty());
                    }
                }
            }
            match r {
                GPMessage::TokenRead => {},
                GPMessage::Reduction => {},
                _ => {
                    return r;
                },
            }
            budget = budget - 1;
        }
        GPMessage::Empty
    }

    pub fn is_initialized(&self) -> (r: bool)
        ensures
            r == self.initialized_spec(),
    {
        self.initialized
    }

    pub fn grammar(&self) -> (r: &EnhancedGrammarTable)
        ensures
            r == self.grammar_spec(),
    {
        &self.grammar
    }

    pub fn set_trim_reductions(&mut self, trim: bool)
        requires
            old(self).wf(),
        ensures
            final(self).wf(),
            final(self).trim_spec() == trim,
            final(self).grammar_spec() == old(self).grammar_spec(),
            final(self).stack_spec() == old(self).stack_spec(),
            final(self).state_spec() == old(self).state_spec(),
            final(self).initialized_spec() == old(self).initialized_spec(),
            final(self).source_spec() == old(self).source_spec(),
            final(self).at_start() == old(self).at_start(),
    {
        self.trim_reductions = trim;
    }

    pub fn trim_reductions(&self) -> (r: bool)
        ensures
            r == self.trim_spec(),
    {
        self.trim_reductions
    }

    /// The current LALR state.
    pub fn current_state(&self) -> (r: usize)
        ensures
            r == self.state_spec(),
    {
        self.curr_state
    }

    /// The parse stack, bottom (the sentinel) first.
    pub fn stack(&self) -> (r: &[Token])
        ensures
            r@ == self.stack_spec(),
    {
        self.stack.as_slice()
    }

    /// The pending lookahead token.
    pub fn get_current_token(&self) -> (r: Option<&Token>)
        ensures
            match self.input_spec() {
                Some(t) => r == Some(&t),
                None => r.is_none(),
            },
    {
        match &self.input {
            Some(t) => Some(t),
            None => None,
        }
    }

    /// The reduction of the token on top of the stack; after acceptance, the
    /// root of the parse tree.
    pub fn get_current_reduction(&self) -> (r: Option<&Reduction>)
        requires
            self.wf(),
        ensures
            match self.stack_spec().last().reduction {
                Some(b) => r == Some(&*b),
                None => r.is_none(),
            },
    {
        self.stack[self.stack.len() - 1].reduction()
    }

    /// Whether the last step reduced a rule into a new reduction (or accepted).
    pub fn have_reduction(&self) -> (r: bool)
        ensures
            r == self.have_reduction_spec(),
    {
        self.have_reduction
    }

    /// Whether the input has been accepted.
    pub fn is_accepted(&self) -> (r: bool)
        ensures
            r == self.accepted_spec(),
    {
        self.accepted
    }

    /// The symbols that the last syntax error expected.
    pub fn expected_symbols(&self) -> (r: &[usize])
        ensures
            r@ == self.expected_spec(),
    {
        self.expected_symbols.as_slice()
    }

    /// The index of the last rule reduced.
    pub fn last_rule(&self) -> (r: usize)
        ensures
            r == self.last_rule_spec(),
    {
        self.last_rule
    }

    /// Position of the last token examined.
    pub fn current_position(&self) -> (r: Position)
        ensures
            r == self.position_spec(),
    {
        self.curr_position
    }

    pub fn col(&self) -> (r: usize)
        ensures
            r == self.position_spec().col,
    {
        self.curr_position.col
    }

    pub fn line(&self) -> (r: usize)
        ensures
            r == self.position_spec().line,
    {
        self.curr_position.line
    }

    /// Position of the source reader.
    pub fn source_position(&self) -> (r: Position)
        ensures
            r == self.source_spec().pos(),
    {
        self.source.position()
    }

    /// The grammar's `About` property.
    pub fn about(&self) -> (r: Option<&String>)
        ensures
            match crate::egt::property_from(self.grammar_spec().properties@, "About"@, 0) {
                Some(i) => r == Some(&self.grammar_spec().properties@[i].value),
                None => r.is_none(),
            },
    {
        let key = String::from_str("About");
        self.grammar.property(&key)
    }

    /// The engine's name and version, then the grammar's `Name` and
    /// `Version` properties: `GOLD Parser Engine - Version 5.0.3\n<name> <version>`.
    pub fn version(&self) -> (r: String)
        ensures
            ({
                let name = crate::egt::property_text(self.grammar_spec().properties@, "Name"@);
                let version = crate::egt::property_text(self.grammar_spec().properties@, "Version"@);
                r@ == "GOLD Parser Engine - Version 5.0.3\n"@ + name + " "@ + version
            }),
    {
        let mut r = String::from_str("GOLD Parser Engine - Version 5.0.3\n");
        let name_key = String::from_str("Name");
        let version_key = String::from_str("Version");
        match self.grammar.property(&name_key) {
            Some(v) => r.append(v.as_str()),
            None => {},
        }
        r.append(" ");
        match self.grammar.property(&version_key) {
            Some(v) => r.append(v.as_str()),
            None => {},
        }
        r
    }

    /// The source reader.
    pub fn source(&self) -> (r: &SourceReader)
        ensures
            *r == self.source_spec(),
    {
        &self.source
    }

    /// Number of open lexical groups.
    pub fn open_group_count(&self) -> (r: usize)
        ensures
            r == self.open_groups(),
    {
        self.groups.len()
    }

    /// The first symbol named `name`.
    pub fn symbol_by_name(&self, name: &String) -> (r: Option<&Symbol>)
        ensures
            match crate::tables::symbol_named_from(self.grammar_spec().symbols@, name@, 0) {
                Some(i) => r == Some(&self.grammar_spec().symbols@[i]),
                None => r.is_none(),
            },
    {
        self.grammar.symbols.get(name)
    }

    /// The first symbol of kind `kind`.
    pub fn symbol_by_type(&self, kind: SymbolType) -> (r: Option<&Symbol>)
        ensures
            match crate::tables::symbol_of_kind_from(self.grammar_spec().symbols@, kind, 0) {
                Some(i) => r == Some(&self.grammar_spec().symbols@[i]),
                None => r.is_none(),
            },
    {
        self.grammar.symbols.get_by_type(kind)
    }
}

impl Parser {
    /// What the invariant of a well-formed parser gives: well-formed tables
    /// and reader, states in range, every tree on the stack fitting its rules,
    /// and, once accepted, the state that `Accept` reports.
    pub proof fn lemma_source_wf(&self)
        requires
            self.wf(),
        ensures
            self.source_spec().wf(),
            self.grammar_spec().wf(),
            self.stack_spec().len() >= 1,
            self.state_spec() < self.grammar_spec().lalr_states@.len(),
            forall|i: int| 0 <= i < self.stack_spec().len() ==> (#[trigger] self.stack_spec()[i]).lalr_state
                < self.grammar_spec().lalr_states@.len(),
            forall|i: int| 0 <= i < self.stack_spec().len() ==> token_fits(self.grammar_spec(), #[trigger] self.stack_spec()[i]),
            self.input_spec() matches Some(t) ==> t.reduction.is_none(),
            self.accepted_spec() ==> (self.input_spec() matches Some(t) && halt_state(self, GPMessage::Accept)),
    {
        if self.accepted {
            assert(self.position_spec() == self.position_spec());
        }
    }
}

/// Whether `p` holds, as its pending token, the token that the tokenizer
/// produces for grammar `g` from reader state `src` with groups `frames`
/// open, with the reader and the open groups moved on accordingly.
pub open spec fn token_read(g: &EnhancedGrammarTable, src: SourceReader, frames: Seq<GroupFrame>, p: &Parser) -> bool {
    let out = produce_from(g, src.text(), src.consumed(), frames);
    &&& p.input_spec() matches Some(t)
    &&& p.input_spec().unwrap().symbol == out.0.symbol
    &&& p.input_spec().unwrap().kind == out.0.kind
    &&& p.input_spec().unwrap().text@ == out.0.text
    &&& p.input_spec().unwrap().pos == out.0.pos
    &&& p.input_spec().unwrap().reduction.is_none()
    &&& p.source_spec().text() == src.text()
    &&& p.source_spec().consumed() == out.1
    &&& p.frames_spec() == out.2
}

/// The state in which the parser halts with result `r`:
/// - `Accept`: accepted, the lookahead's action is Accept, and only the
///   sentinel and one token are on the stack, before an end-of-file
///   lookahead without text;
/// - `SyntaxError`: the lookahead has no Shift, Reduce or Accept action, and
///   the expected symbols are those the current state shifts;
/// - `LexicalError`: an error token is pending;
/// - `GroupError`: a group is open and an end-of-file token is pending;
/// - `InternalError`: the lookahead's action is a Reduce that finds no Goto,
///   or an Accept that is not well placed;
/// - `NotLoadedError`: no source was given.
/// The reported position is the pending token's.
pub open spec fn halt_state(p: &Parser, r: GPMessage) -> bool {
    let g = p.grammar_spec();
    let acts = g.lalr_states@[p.state_spec() as int].actions@;
    let st = p.stack_spec();
    match r {
        GPMessage::Accept => p.accepted_spec() && (p.input_spec() matches Some(t) && accept_ready(st, t)
            && (action_for(acts, t.symbol) matches Some(a) && a.action == ActionType::Accept)),
        GPMessage::SyntaxError => p.input_spec() matches Some(t) && t.kind != SymbolType::Noise
            && t.kind != SymbolType::Error && p.position_spec() == t.pos && p.expected_spec() == shift_symbols(acts)
            && !(action_for(acts, t.symbol) matches Some(a) && (a.action == ActionType::Shift
            || a.action == ActionType::Reduce || a.action == ActionType::Accept)),
        GPMessage::LexicalError => p.input_spec() matches Some(t) && t.kind == SymbolType::Error && p.position_spec() == t.pos,
        GPMessage::GroupError => p.open_groups() > 0 && (p.input_spec() matches Some(t) && t.kind == SymbolType::EndOfFile
            && p.position_spec() == t.pos),
        GPMessage::InternalError => p.input_spec() matches Some(t) && t.kind != SymbolType::Noise
            && t.kind != SymbolType::Error && (action_for(acts, t.symbol) matches Some(a) && ((a.action == ActionType::Reduce
            && !goto_after_reduce(g, st, a.target_idx)) || (a.action == ActionType::Accept && !accept_ready(st, t)))),
        GPMessage::NotLoadedError => !p.initialized_spec(),
        _ => false,
    }
}

/// In a well-formed parser the leaves of the stack, in order, followed by
/// the pending token's text unless it is noise, spell the texts of the
/// non-noise tokens read since the start.
pub proof fn lemma_leaves_spell_read_text(p: &Parser)
    requires
        p.wf(),
    ensures
        tokens_leaves(p.stack_spec()) + pending_text(p.input_spec()) == p.read_text_spec(),
{
}

/// In the state in which `parse` reports `Accept` (only the sentinel and the
/// root token on the stack, an end-of-file lookahead without text), the
/// leaves of the root reduction spell the texts of all non-noise tokens
/// read, in order.
pub proof fn lemma_accepted_root_leaves(p: &Parser)
    requires
        p.wf(),
        halt_state(p, GPMessage::Accept),
        p.stack_spec()[1].reduction is Some,
    ensures
        leaves_from(*p.stack_spec()[1].reduction.unwrap(), 0) == p.read_text_spec(),
{
    let st = p.stack@;
    assert(st.drop_first() =~= seq![st[1]]);
    assert(seq![st[1]].drop_first() =~= Seq::<Token>::empty());
    assert(tokens_leaves(Seq::<Token>::empty()) == Seq::<char>::empty());
    assert(tokens_leaves(seq![st[1]]) =~= token_leaves(st[1]));
    assert(tokens_leaves(st) =~= token_leaves(st[1]));
    assert(pending_text(p.input) =~= Seq::<char>::empty());
    assert(tokens_leaves(st) + pending_text(p.input) =~= token_leaves(st[1]));
}

/// Every reduction anywhere in the tree under a token on the stack of a
/// well-formed parser names a rule and holds exactly one token per body
/// symbol of that rule.
pub proof fn lemma_tree_reductions_fit(p: &Parser, i: int)
    requires
        p.wf(),
        0 <= i < p.stack_spec().len(),
    ensures
        token_fits(p.grammar_spec(), p.stack_spec()[i]),
{
    assert(token_fits(&p.grammar, p.stack@[i]));
}

/// Below a token whose tree fits, its own reduction holds one token per body
/// symbol of its rule, and each of those tokens' trees fits as well.
pub proof fn lemma_children_fit(g: &EnhancedGrammarTable, t: Token, j: int)
    requires
        token_fits(g, t),
        t.reduction is Some,
        0 <= j < t.reduction.unwrap().tokens@.len(),
    ensures
        t.reduction.unwrap().rule < g.productions@.len(),
        t.reduction.unwrap().tokens@.len() == g.productions@[t.reduction.unwrap().rule as int].symbols@.len(),
        token_fits(g, t.reduction.unwrap().tokens@[j]),
{
    lemma_fits_from(g, *t.reduction.unwrap(), 0);
}

/// Every reduction on the stack of a well-formed parser holds exactly one
/// token per body symbol of its rule.
pub proof fn lemma_reduction_body_length(p: &Parser, i: int)
    requires
        p.wf(),
        0 <= i < p.stack_spec().len(),
        p.stack_spec()[i].reduction is Some,
    ensures
        ({
            let red = p.stack_spec()[i].reduction.unwrap();
            &&& red.rule < p.grammar_spec().productions@.len()
            &&& red.tokens@.len() == p.grammar_spec().productions@[red.rule as int].symbols@.len()
        }),
{
    assert(reduction_fits(&p.grammar, p.stack@[i]));
}


} // verus!
