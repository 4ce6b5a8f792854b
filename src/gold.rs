//! A front end over the parser: builds it from a grammar and a source, runs
//! it, and draws the resulting tree.
use vstd::prelude::*;
use crate::egt::EnhancedGrammarTable;
use crate::parser::{GPMessage, Parser, halt_state, stream_reached};
use crate::position::Position;
use crate::tables::symbol_named_from;
use crate::text::string_of_chars;
use crate::token::{Reduction, Token};
use crate::tree::{draw_reduction, tree_text};

verus! {

/// The name of the symbol that marks a grammar as indentation-sensitive.
pub open spec fn indent_increase() -> Seq<char> {
    "IndentIncrease"@
}

/// The message given when no tree is available.
pub open spec fn no_tree_message() -> Seq<char> {
    "Error: Parse Tree Not Available."@
}

/// Drives a `Parser` over one source and keeps the accepted tree.
pub struct GOLDParser {
    pub parser: Parser,
    pub ignore_case: bool,
    pub generate_tree: bool,
    pub ignore_indent: bool,
    /// The event that ended the last run.
    pub last_result: GPMessage,
}

impl GOLDParser {
    pub open spec fn parser_spec(&self) -> &Parser {
        &self.parser
    }

    /// The parser is well formed.
    pub open spec fn wf(&self) -> bool {
        self.parser.wf()
    }

    /// A front end for `grammar` over `src`.  Indentation is ignored unless
    /// the grammar has a symbol named `IndentIncrease`.
    pub fn new(grammar: EnhancedGrammarTable, src: String, trim: bool, case: bool) -> (r: GOLDParser)
        requires
            grammar.wf(),
            src@.len() < usize::MAX,
        ensures
            r.wf(),
            *r.parser_spec().grammar_spec() == grammar,
            r.parser_spec().initialized_spec(),
            r.parser_spec().source_spec().text() == src@,
            r.parser_spec().trim_spec() == trim,
            r.ignore_case == case,
            !r.generate_tree,
            r.ignore_indent == symbol_named_from(grammar.symbols@, indent_increase(), 0).is_none(),
            r.parser_spec().fresh(),
            r.last_result == GPMessage::Empty,
    {
        proof {
            reveal_strlit("IndentIncrease");
        }
        let mut parser = Parser::new(grammar);
        let marker = String::from_str("IndentIncrease");
        let ignore_indent = parser.symbol_by_name(&marker).is_none();
        parser.load_source(src);
        parser.set_trim_reductions(trim);
        GOLDParser { parser, ignore_case: case, generate_tree: false, ignore_indent, last_result: GPMessage::Empty }
    }

    /// Runs the parse to its end; true when the source was accepted.  When
    /// false on a loaded parser, the parse halted in one of the error states
    /// of `halt_state`, or gave up after its step budget.
    pub fn parse_source(&mut self) -> (r: bool)
        requires
            old(self).wf(),
        ensures
            final(self).wf(),
            final(self).parser_spec().grammar_spec() == old(self).parser_spec().grammar_spec(),
            old(self).parser_spec().initialized_spec() ==> r == final(self).parser_spec().accepted_spec(),
            old(self).parser_spec().initialized_spec() && r ==> halt_state(final(self).parser_spec(), GPMessage::Accept),
            old(self).parser_spec().initialized_spec() && !r ==> (final(self).last_result == GPMessage::Empty
                || (final(self).last_result != GPMessage::Accept && halt_state(final(self).parser_spec(), final(self).last_result))),
            !old(self).parser_spec().initialized_spec() ==> !r,
            old(self).parser_spec().initialized_spec() && final(self).last_result == GPMessage::Empty
                ==> final(self).parser_spec().steps_spec() == old(self).parser_spec().steps_spec() + usize::MAX,
            old(self).parser_spec().fresh() ==> exists|k: nat| #[trigger] stream_reached(
                final(self).parser_spec(),
                old(self).parser_spec().source_spec().text(),
                k,
            ),
    {
        if !self.parser.is_initialized() {
            return false;
        }
        let ghost old_parser = self.parser;
        let m = self.parser.parse();
        self.last_result = m;
        proof {
            if old_parser.fresh() {
                let s = old_parser.source_spec().text();
                let k = choose|k: nat| #[trigger] stream_reached(&self.parser, s, k);
                assert(stream_reached(self.parser_spec(), s, k));
            }
        }
        match m {
            GPMessage::Accept => true,
            _ => false,
        }
    }

    /// Runs the parse to its end and returns the final event.
    pub fn run(&mut self) -> (r: GPMessage)
        requires
            old(self).wf(),
        ensures
            final(self).wf(),
            r != GPMessage::TokenRead && r != GPMessage::Reduction,
            r != GPMessage::Empty ==> halt_state(final(self).parser_spec(), r),
            old(self).parser_spec().initialized_spec() ==> (r == GPMessage::Accept <==> final(self).parser_spec().accepted_spec()),
            !old(self).parser_spec().initialized_spec() ==> r == GPMessage::NotLoadedError,
            final(self).last_result == r,
            old(self).parser_spec().initialized_spec() && r == GPMessage::Empty
                ==> final(self).parser_spec().steps_spec() == old(self).parser_spec().steps_spec() + usize::MAX,
            old(self).parser_spec().fresh() ==> exists|k: nat| #[trigger] stream_reached(
                final(self).parser_spec(),
                old(self).parser_spec().source_spec().text(),
                k,
            ),
    {
        let ghost old_parser = self.parser;
        let m = self.parser.parse();
        self.last_result = m;
        proof {
            if old_parser.fresh() {
                let s = old_parser.source_spec().text();
                let k = choose|k: nat| #[trigger] stream_reached(&self.parser, s, k);
                assert(stream_reached(self.parser_spec(), s, k));
            }
        }
        m
    }

    /// The root of the accepted tree.
    pub fn root(&self) -> (r: Option<&Reduction>)
        requires
            self.wf(),
        ensures
            r.is_some() ==> self.parser_spec().accepted_spec()
                && self.parser_spec().stack_spec().last().reduction == Some(Box::new(*r.unwrap())),
            self.parser_spec().accepted_spec() && self.parser_spec().stack_spec().last().reduction.is_some() ==> r.is_some(),
    {
        if self.parser.is_accepted() {
            self.parser.get_current_reduction()
        } else {
            None
        }
    }

    /// The accepted tree drawn in pre-order, one node per line: inner nodes
    /// as their rule, leaves as their symbol's name, each level indented by
    /// `"| "`.  Without an accepted tree, an error message.
    pub fn get_parse_tree(&self) -> (r: String)
        requires
            self.wf(),
        ensures
            (self.parser_spec().accepted_spec() && self.parser_spec().stack_spec().last().reduction.is_some())
                ==> r@ == tree_text(self.parser_spec().grammar_spec(), *self.parser_spec().stack_spec().last().reduction.unwrap()),
            !(self.parser_spec().accepted_spec() && self.parser_spec().stack_spec().last().reduction.is_some())
                ==> r@ == no_tree_message(),
    {
        proof {
            reveal_strlit("Error: Parse Tree Not Available.");
        }
        proof {
            self.parser.lemma_source_wf();
        }
        match self.root() {
            Some(root) => {
                let g = self.parser.grammar();
                let mut out: Vec<char> = Vec::new();
                let empty: Vec<char> = Vec::new();
                let label = crate::tree::rule_chars_of(g, root.rule);
                crate::tree::push_tree_line(&mut out, &empty, &label);
                let mut prefix: Vec<char> = Vec::new();
                prefix.push('|');
                prefix.push(' ');
                self.draw_reduction(&mut out, root, &prefix);
                assert(empty@ =~= Seq::<char>::empty());
                assert(prefix@ =~= seq!['|', ' ']);
                assert(out@ =~= tree_text(self.parser_spec().grammar_spec(), *root));
                string_of_chars(out.as_slice())
            },
            None => String::from_str("Error: Parse Tree Not Available."),
        }
    }

    /// Appends the drawing of the tokens of `reduction`, each line indented
    /// by `indent`.
    pub fn draw_reduction(&self, tree: &mut Vec<char>, reduction: &Reduction, indent: &Vec<char>)
        requires
            self.wf(),
        ensures
            final(tree)@ == old(tree)@ + crate::tree::tree_from(self.parser_spec().grammar_spec(), *reduction, indent@, 0),
    {
        proof {
            self.parser.lemma_source_wf();
        }
        draw_reduction(self.parser.grammar(), tree, reduction, indent, 0);
    }

    /// Returns to the start of the source.
    pub fn clear(&mut self)
        requires
            old(self).wf(),
        ensures
            final(self).wf(),
            final(self).parser_spec().grammar_spec() == old(self).parser_spec().grammar_spec(),
            final(self).parser_spec().initialized_spec() == old(self).parser_spec().initialized_spec(),
            final(self).parser_spec().trim_spec() == old(self).parser_spec().trim_spec(),
            final(self).parser_spec().source_spec().text() == old(self).parser_spec().source_spec().text(),
            final(self).parser_spec().at_start(),
    {
        self.parser.reset();
    }

    pub fn is_initialized(&self) -> (r: bool)
        ensures
            r == self.parser_spec().initialized_spec(),
    {
        self.parser.is_initialized()
    }

    /// The pending lookahead token.
    pub fn get_current_token(&self) -> (r: Option<&Token>)
        ensures
            match self.parser_spec().input_spec() {
                Some(t) => r == Some(&t),
                None => r.is_none(),
            },
    {
        self.parser.get_current_token()
    }

    pub fn parser(&self) -> (r: &Parser)
        ensures
            r == self.parser_spec(),
    {
        &self.parser
    }

    /// Number of characters in the source.
    pub fn source_size(&self) -> (r: usize)
        ensures
            r == self.parser_spec().source_spec().text().len(),
    {
        self.parser.source().len()
    }

    /// Position of the source reader.
    pub fn source_pos(&self) -> (r: Position)
        ensures
            r == self.parser_spec().source_spec().pos(),
    {
        self.parser.source_position()
    }

    /// Index of the next character not yet read into the lookahead buffer.
    pub fn source_abs_pos(&self) -> (r: usize)
        requires
            self.wf(),
        ensures
            r == self.parser_spec().source_spec().consumed() + self.parser_spec().source_spec().buffered(),
    {
        proof {
            self.parser.lemma_source_wf();
        }
        self.parser.source().get_abs_pos()
    }
}

} // verus!
