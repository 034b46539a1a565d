//! What the LR automata have in common: their number of states and their
//! transitions `(from, to, symbol)`.
use vstd::prelude::*;
use crate::grammar::RuleElem;
use crate::lr0_dfa::LR0DFA;
use crate::lr1_dfa::LR1DFA;
use crate::lalr1::LALR1DFA;

verus! {

pub trait Automaton {
    spec fn spec_len(&self) -> nat;

    spec fn spec_edges(&self) -> Seq<(usize, usize, RuleElem)>;

    /// The number of states.
    fn len(&self) -> (res: usize)
        ensures
            res == self.spec_len(),
    ;

    /// The transitions.
    fn edges(&self) -> (res: &Vec<(usize, usize, RuleElem)>)
        ensures
            res@ == self.spec_edges(),
    ;
}

impl<'a> Automaton for LR0DFA<'a> {
    open spec fn spec_len(&self) -> nat {
        self.nodes@.len()
    }

    open spec fn spec_edges(&self) -> Seq<(usize, usize, RuleElem)> {
        self.edges@
    }

    fn len(&self) -> (res: usize) {
        self.nodes.len()
    }

    fn edges(&self) -> (res: &Vec<(usize, usize, RuleElem)>) {
        &self.edges
    }
}

impl<'a, 'b> Automaton for LR1DFA<'a, 'b> {
    open spec fn spec_len(&self) -> nat {
        self.nodes@.len()
    }

    open spec fn spec_edges(&self) -> Seq<(usize, usize, RuleElem)> {
        self.edges@
    }

    fn len(&self) -> (res: usize) {
        self.nodes.len()
    }

    fn edges(&self) -> (res: &Vec<(usize, usize, RuleElem)>) {
        &self.edges
    }
}

impl Automaton for LALR1DFA {
    open spec fn spec_len(&self) -> nat {
        self.nodes@.len()
    }

    open spec fn spec_edges(&self) -> Seq<(usize, usize, RuleElem)> {
        self.edges@
    }

    fn len(&self) -> (res: usize) {
        self.nodes.len()
    }

    fn edges(&self) -> (res: &Vec<(usize, usize, RuleElem)>) {
        &self.edges
    }
}

} // verus!
