//! Grammar vocabulary: labelled terminal and nonterminal symbols.
use vstd::prelude::*;

verus! {

broadcast use {vstd::string::axiom_spec_iter, vstd::string::next_postcondition};

/// A grammar symbol. A label that starts with an ASCII uppercase letter names a
/// nonterminal; every other label names a terminal.
#[derive(Debug, Clone, PartialEq, Eq, Hash)]
pub struct Symbol {
    pub label: String,
    pub terminal: bool,
}

/// The mathematical value of a symbol: its label and its terminal flag.
pub type SymbolView = (Seq<char>, bool);

impl View for Symbol {
    type V = SymbolView;

    open spec fn view(&self) -> SymbolView {
        (self.label@, self.terminal)
    }
}

/// Whether `c` is an ASCII uppercase letter.
pub open spec fn is_upper_ascii(c: char) -> bool {
    'A' <= c && c <= 'Z'
}

/// The classification rule: a label names a terminal unless its first character
/// is an ASCII uppercase letter.
pub open spec fn label_is_terminal(label: Seq<char>) -> bool {
    !(label.len() > 0 && is_upper_ascii(label[0]))
}

impl Symbol {
    /// Classifies `text` by its first character and makes it a symbol.
    pub fn from_label(text: String) -> (r: Symbol)
        ensures
            r.label == text,
            r.label@ == text@,
            r.terminal == label_is_terminal(text@),
    {
        let first = {
            let mut chars = text.as_str().chars();
            chars.next()
        };
        let terminal = match first {
            Some(c) => !('A' <= c && c <= 'Z'),
            None => true,
        };
        Symbol { label: text, terminal }
    }

    /// A nonterminal with the given label.
    pub fn nonterminal(label: &str) -> (r: Symbol)
        ensures
            r.label@ == label@,
            !r.terminal,
    {
        Symbol { label: label.to_owned(), terminal: false }
    }

    /// A copy of this symbol with the same label and flag.
    pub fn duplicate(&self) -> (r: Symbol)
        ensures
            r@ == self@,
    {
        Symbol { label: self.label.clone(), terminal: self.terminal }
    }

    /// Whether both symbols have the same label and the same flag.
    pub fn same_as(&self, other: &Symbol) -> (r: bool)
        ensures
            r == (self@ == other@),
    {
        self.terminal == other.terminal && self.label == other.label
    }

    /// The label of the symbol, as text.
    pub fn to_string(&self) -> (r: String)
        ensures
            r@ == self.label@,
    {
        self.label.clone()
    }
}

impl From<String> for Symbol {
    /// Classifies `text` by its first character and makes it a symbol.
    fn from(text: String) -> (r: Symbol) {
        Symbol::from_label(text)
    }
}

impl vstd::std_specs::convert::FromSpecImpl<String> for Symbol {
    open spec fn obeys_from_spec() -> bool {
        true
    }

    open spec fn from_spec(text: String) -> Symbol {
        Symbol { label: text, terminal: label_is_terminal(text@) }
    }
}

} // verus!
