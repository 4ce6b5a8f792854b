//! Rendering a reduction tree, one line per node, in pre-order.
use vstd::prelude::*;
use crate::egt::EnhancedGrammarTable;
use crate::production::rule_text;
use crate::text::chars_of;
use crate::token::Reduction;

verus! {

/// The label of an inner node: the rule in Backus-Naur form.
pub open spec fn rule_label(g: &EnhancedGrammarTable, rule: usize) -> Seq<char> {
    if rule < g.productions@.len() {
        rule_text(g.symbols@, g.productions@[rule as int])
    } else {
        Seq::empty()
    }
}

/// The label of a leaf: the symbol's name.
pub open spec fn symbol_label(g: &EnhancedGrammarTable, sym: usize) -> Seq<char> {
    if sym < g.symbols@.len() {
        g.symbols@[sym as int].name@
    } else {
        Seq::empty()
    }
}

/// One line of the drawing.
pub open spec fn tree_line(prefix: Seq<char>, label: Seq<char>) -> Seq<char> {
    prefix + seq!['+', '-'] + label + seq!['\r', '\n']
}

/// The lines for the tokens of `r` from position `i` on, each indented by
/// `prefix`; an inner node is followed by its own tokens, indented by one
/// more `"| "`.
pub open spec fn tree_from(g: &EnhancedGrammarTable, r: Reduction, prefix: Seq<char>, i: int) -> Seq<char>
    decreases r, r.tokens@.len() - i,
{
    if i < 0 || i >= r.tokens@.len() {
        Seq::empty()
    } else {
        match r.tokens@[i].reduction {
            Some(b) => tree_line(prefix, rule_label(g, b.rule)) + tree_from(g, *b, prefix + seq!['|', ' '], 0)
                + tree_from(g, r, prefix, i + 1),
            None => tree_line(prefix, symbol_label(g, r.tokens@[i].symbol)) + tree_from(g, r, prefix, i + 1),
        }
    }
}

/// The drawing of a whole tree: the root's rule, then its tokens.
pub open spec fn tree_text(g: &EnhancedGrammarTable, r: Reduction) -> Seq<char> {
    tree_line(Seq::empty(), rule_label(g, r.rule)) + tree_from(g, r, seq!['|', ' '], 0)
}

fn append_chars(out: &mut Vec<char>, s: &Vec<char>)
    ensures
        final(out)@ == old(out)@ + s@,
{
    let mut i: usize = 0;
    while i < s.len()
        invariant
            0 <= i <= s@.len(),
            out@ == old(out)@ + s@.subrange(0, i as int),
        decreases s@.len() - i,
    {
        out.push(s[i]);
        i = i + 1;
        assert(out@ =~= old(out)@ + s@.subrange(0, i as int));
    }
    assert(s@.subrange(0, s@.len() as int) =~= s@);
}

pub(crate) fn push_tree_line(out: &mut Vec<char>, prefix: &Vec<char>, label: &Vec<char>)
    ensures
        final(out)@ == old(out)@ + tree_line(prefix@, label@),
{
    append_chars(out, prefix);
    out.push('+');
    out.push('-');
    append_chars(out, label);
    out.push('\r');
    out.push('\n');
    assert(out@ =~= old(out)@ + tree_line(prefix@, label@));
}

pub(crate) fn rule_chars_of(g: &EnhancedGrammarTable, rule: usize) -> (r: Vec<char>)
    requires
        g.wf(),
    ensures
        r@ == rule_label(g, rule),
{
    if rule < g.productions.0.len() {
        assert(crate::production::rule_in_range(g.productions@[rule as int], g.symbols@.len()));
        let s = g.productions.0[rule].to_string(&g.symbols);
        chars_of(s.as_str())
    } else {
        Vec::new()
    }
}

fn symbol_chars(g: &EnhancedGrammarTable, sym: usize) -> (r: Vec<char>)
    ensures
        r@ == symbol_label(g, sym),
{
    if sym < g.symbols.0.len() {
        chars_of(g.symbols.0[sym].name.as_str())
    } else {
        Vec::new()
    }
}

/// Appends the lines for the tokens of `r` from position `i` on.
pub fn draw_reduction(g: &EnhancedGrammarTable, out: &mut Vec<char>, r: &Reduction, prefix: &Vec<char>, i: usize)
    requires
        g.wf(),
    ensures
        final(out)@ == old(out)@ + tree_from(g, *r, prefix@, i as int),
    decreases *r, r.tokens@.len() - i,
{
    if i >= r.tokens.len() {
        assert(final(out)@ =~= old(out)@ + tree_from(g, *r, prefix@, i as int));
        return;
    }
    let t = &r.tokens[i];
    match &t.reduction {
        Some(b) => {
            let label = rule_chars_of(g, b.rule);
            push_tree_line(out, prefix, &label);
            let mut inner = Vec::new();
            append_chars(&mut inner, prefix);
            inner.push('|');
            inner.push(' ');
            assert(inner@ =~= prefix@ + seq!['|', ' ']);
            draw_reduction(g, out, &**b, &inner, 0);
        },
        None => {
            let label = symbol_chars(g, t.symbol);
            push_tree_line(out, prefix, &label);
        },
    }
    draw_reduction(g, out, r, prefix, i + 1);
    assert(out@ =~= old(out)@ + tree_from(g, *r, prefix@, i as int));
}

} // verus!
