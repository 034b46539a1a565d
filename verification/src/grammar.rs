//! Context-free grammars: symbols, production rules and rule sets.
//!
//! Terminals (tokens) and nonterminals are identified by integers: a token
//! set of `num_terms` tokens uses the ids `0..num_terms`, and the
//! nonterminals of a rule set use the ids `0..num_nonterms`.
use vstd::prelude::*;

verus! {

/// A symbol on either side of a production rule.
#[derive(Clone, Copy, PartialEq, Eq, Structural, Debug, Hash)]
pub enum RuleElem {
    /// A nonterminal, by id.
    NonTerm(usize),
    /// A terminal (token kind), by id.
    Term(usize),
    /// The empty word.
    Epsilon,
    /// The end of the input.
    EOF,
}

impl RuleElem {
    pub fn new_nonterm(id: usize) -> (res: RuleElem)
        ensures
            res == RuleElem::NonTerm(id),
    {
        RuleElem::NonTerm(id)
    }

    pub fn new_term(id: usize) -> (res: RuleElem)
        ensures
            res == RuleElem::Term(id),
    {
        RuleElem::Term(id)
    }

    /// The symbol may stand in the right-hand side of a rule of a grammar
    /// with `nt` terminals and `nn` nonterminals.
    pub open spec fn valid_in(self, nt: nat, nn: nat) -> bool {
        match self {
            RuleElem::NonTerm(n) => n < nn,
            RuleElem::Term(t) => t < nt,
            RuleElem::Epsilon => true,
            RuleElem::EOF => false,
        }
    }

    /// The symbol may be handed to a FIRST-set lookup: any symbol of the
    /// grammar, including the end marker.
    pub open spec fn known_in(self, nt: nat, nn: nat) -> bool {
        match self {
            RuleElem::NonTerm(n) => n < nn,
            RuleElem::Term(t) => t < nt,
            RuleElem::Epsilon => true,
            RuleElem::EOF => true,
        }
    }

    pub fn is_nonterm(&self) -> (res: bool)
        ensures
            res == (*self is NonTerm),
    {
        match self {
            RuleElem::NonTerm(_) => true,
            _ => false,
        }
    }
}

/// A production rule `lhs ::= rhs`, with the tag of the rule group that
/// declared it.
#[derive(Debug)]
pub struct Rule {
    pub tag: Option<usize>,
    pub lhs: usize,
    pub rhs: Vec<RuleElem>,
}

impl Rule {
    pub fn new(tag: Option<usize>, lhs: usize, rhs: Vec<RuleElem>) -> (res: Rule)
        ensures
            res.tag == tag,
            res.lhs == lhs,
            res.rhs@ == rhs@,
    {
        Rule { tag, lhs, rhs }
    }

    pub fn copy(&self) -> (res: Rule)
        ensures
            res.tag == self.tag,
            res.lhs == self.lhs,
            res.rhs@ == self.rhs@,
    {
        let mut rhs: Vec<RuleElem> = Vec::new();
        let mut i: usize = 0;
        while i < self.rhs.len()
            invariant
                i <= self.rhs@.len(),
                rhs@ == self.rhs@.subrange(0, i as int),
            decreases self.rhs@.len() - i,
        {
            rhs.push(self.rhs[i]);
            i = i + 1;
        }
        Rule { tag: self.tag, lhs: self.lhs, rhs }
    }
}

/// A grammar: its rules, its start symbol `top`, and the sizes of its
/// terminal and nonterminal alphabets.
#[derive(Debug)]
pub struct RuleSet {
    pub top: usize,
    pub rules: Vec<Rule>,
    pub num_terms: usize,
    pub num_nonterms: usize,
}

impl RuleSet {
    pub open spec fn nt(&self) -> nat {
        self.num_terms as nat
    }

    pub open spec fn nn(&self) -> nat {
        self.num_nonterms as nat
    }

    pub open spec fn rule_wf(&self, i: int) -> bool {
        let r = self.rules@[i];
        &&& r.lhs < self.num_nonterms
        &&& r.rhs@.len() > 0
        &&& forall|j: int|
            0 <= j < r.rhs@.len() ==> (#[trigger] r.rhs@[j]).valid_in(self.nt(), self.nn())
    }

    /// Well-formedness: every rule speaks of declared symbols only, no right
    /// side is empty (the empty word is written `Epsilon`), and the start
    /// symbol is declared.
    pub open spec fn wf(&self) -> bool {
        &&& self.top < self.num_nonterms
        &&& self.num_terms + 2 < usize::MAX
        &&& self.num_nonterms + 1 < usize::MAX
        &&& forall|i: int| 0 <= i < self.rules@.len() ==> #[trigger] self.rule_wf(i)
    }

    /// Whether the grammar is well formed and small enough to be augmented
    /// with a start rule.
    pub fn is_valid(&self) -> (res: bool)
        ensures
            res == (self.wf() && self.rules@.len() + 1 < usize::MAX && self.num_nonterms + 2 < usize::MAX),
    {
        if self.top >= self.num_nonterms || self.num_terms >= usize::MAX - 2 || self.num_nonterms >= usize::MAX - 2
            || self.rules.len() >= usize::MAX - 1 {
            return false;
        }
        let mut i: usize = 0;
        while i < self.rules.len()
            invariant
                i <= self.rules@.len(),
                self.num_terms + 2 < usize::MAX,
                forall|q: int| 0 <= q < i ==> #[trigger] self.rule_wf(q),
            decreases self.rules@.len() - i,
        {
            let r = &self.rules[i];
            if r.lhs >= self.num_nonterms || r.rhs.len() == 0 {
                assert(!self.rule_wf(i as int));
                return false;
            }
            let mut j: usize = 0;
            while j < r.rhs.len()
                invariant
                    i < self.rules@.len(),
                    *r == self.rules@[i as int],
                    r.lhs < self.num_nonterms,
                    r.rhs@.len() > 0,
                    j <= r.rhs@.len(),
                    forall|q: int| 0 <= q < j ==> (#[trigger] r.rhs@[q]).valid_in(self.nt(), self.nn()),
                decreases r.rhs@.len() - j,
            {
                let ok = match r.rhs[j] {
                    RuleElem::NonTerm(n) => n < self.num_nonterms,
                    RuleElem::Term(t) => t < self.num_terms,
                    RuleElem::Epsilon => true,
                    RuleElem::EOF => false,
                };
                if !ok {
                    assert(!r.rhs@[j as int].valid_in(self.nt(), self.nn()));
                    assert(!self.rule_wf(i as int));
                    return false;
                }
                j = j + 1;
            }
            i = i + 1;
        }
        true
    }

    /// Rule `i` has `lhs` on its left.
    pub open spec fn is_rule_of(&self, i: int, lhs: usize) -> bool {
        0 <= i < self.rules@.len() && self.rules@[i].lhs == lhs
    }

    /// The indices of the rules whose left side is the nonterminal `nonterm`,
    /// in the order in which the rules stand.
    pub fn find_rule(&self, nonterm: usize) -> (res: Vec<usize>)
        ensures
            forall|k: int| 0 <= k < res@.len() ==> self.is_rule_of(#[trigger] res@[k] as int, nonterm),
            forall|i: int| self.is_rule_of(i, nonterm) ==> #[trigger] res@.contains(i as usize),
            forall|a: int, b: int| 0 <= a < b < res@.len() ==> res@[a] < res@[b],
    {
        let mut res: Vec<usize> = Vec::new();
        let mut i: usize = 0;
        while i < self.rules.len()
            invariant
                i <= self.rules@.len(),
                forall|k: int| 0 <= k < res@.len() ==> self.is_rule_of(#[trigger] res@[k] as int, nonterm),
                forall|k: int| 0 <= k < res@.len() ==> #[trigger] res@[k] < i,
                forall|j: int| 0 <= j < i && self.is_rule_of(j, nonterm) ==> #[trigger] res@.contains(j as usize),
                forall|a: int, b: int| 0 <= a < b < res@.len() ==> res@[a] < res@[b],
            decreases self.rules@.len() - i,
        {
            let ghost prev = res@;
            if self.rules[i].lhs == nonterm {
                res.push(i);
                assert(res@[res@.len() - 1] == i);
            }
            assert forall|j: int| 0 <= j < i + 1 && self.is_rule_of(j, nonterm) implies #[trigger] res@.contains(j as usize) by {
                if j < i {
                    assert(prev.contains(j as usize));
                    let q = choose|q: int| 0 <= q < prev.len() && prev[q] == j as usize;
                    assert(res@[q] == j as usize);
                } else {
                    assert(res@[res@.len() - 1] == i);
                }
            }
            i = i + 1;
        }
        res
    }

    /// A copy of the grammar.
    pub fn copy(&self) -> (res: RuleSet)
        ensures
            res.top == self.top,
            res.num_terms == self.num_terms,
            res.num_nonterms == self.num_nonterms,
            res.rules@.len() == self.rules@.len(),
            forall|i: int| 0 <= i < self.rules@.len() ==> (#[trigger] res.rules@[i]).lhs == self.rules@[i].lhs
                && res.rules@[i].tag == self.rules@[i].tag && res.rules@[i].rhs@ == self.rules@[i].rhs@,
    {
        let mut rules: Vec<Rule> = Vec::new();
        let mut i: usize = 0;
        while i < self.rules.len()
            invariant
                i <= self.rules@.len(),
                rules@.len() == i,
                forall|j: int| 0 <= j < i ==> (#[trigger] rules@[j]).lhs == self.rules@[j].lhs
                    && rules@[j].tag == self.rules@[j].tag && rules@[j].rhs@ == self.rules@[j].rhs@,
            decreases self.rules@.len() - i,
        {
            rules.push(self.rules[i].copy());
            i = i + 1;
        }
        RuleSet { top: self.top, rules, num_terms: self.num_terms, num_nonterms: self.num_nonterms }
    }

    /// Adds the rule `__top_dummy ::= <top>` under a fresh nonterminal and
    /// makes that nonterminal the start symbol. Returns the index of the
    /// added rule.
    pub fn update_top(&mut self) -> (dummy: usize)
        requires
            old(self).wf(),
            old(self).rules@.len() + 1 < usize::MAX,
            old(self).num_nonterms + 2 < usize::MAX,
        ensures
            final(self).wf(),
            dummy == old(self).rules@.len(),
            final(self).rules@.len() == old(self).rules@.len() + 1,
            forall|i: int| 0 <= i < old(self).rules@.len() ==> #[trigger] final(self).rules@[i] == old(self).rules@[i],
            final(self).rules@[dummy as int].lhs == old(self).num_nonterms,
            final(self).rules@[dummy as int].rhs@ == seq![RuleElem::NonTerm(old(self).top)],
            final(self).rules@[dummy as int].tag is None,
            final(self).top == old(self).num_nonterms,
            final(self).num_nonterms == old(self).num_nonterms + 1,
            final(self).num_terms == old(self).num_terms,
    {
        let fresh = self.num_nonterms;
        let mut rhs: Vec<RuleElem> = Vec::new();
        rhs.push(RuleElem::NonTerm(self.top));
        let dummy = self.rules.len();
        self.rules.push(Rule::new(None, fresh, rhs));
        self.num_nonterms = fresh + 1;
        self.top = fresh;
        assert forall|i: int| 0 <= i < self.rules@.len() implies #[trigger] self.rule_wf(i) by {
            if i < dummy {
                assert(old(self).rule_wf(i));
                let r = self.rules@[i];
                assert forall|j: int| 0 <= j < r.rhs@.len() implies (#[trigger] r.rhs@[j]).valid_in(
                    self.nt(),
                    self.nn(),
                ) by {
                    assert(r.rhs@[j].valid_in(old(self).nt(), old(self).nn()));
                }
            } else {
                let r = self.rules@[i];
                assert forall|j: int| 0 <= j < r.rhs@.len() implies (#[trigger] r.rhs@[j]).valid_in(
                    self.nt(),
                    self.nn(),
                ) by {
                    assert(j == 0);
                }
            }
        }
        dummy
    }
}

/// `aug` is `g` with the rule `__top_dummy ::= <top>` added under a fresh
/// nonterminal that becomes the start symbol.
pub open spec fn is_augmentation(g: RuleSet, aug: RuleSet) -> bool {
    let d = g.rules@.len() as int;
    &&& aug.num_terms == g.num_terms
    &&& aug.num_nonterms == g.num_nonterms + 1
    &&& aug.top == g.num_nonterms
    &&& aug.rules@.len() == d + 1
    &&& forall|i: int| 0 <= i < d ==> (#[trigger] aug.rules@[i]).lhs == g.rules@[i].lhs && aug.rules@[i].tag == g.rules@[i].tag
        && aug.rules@[i].rhs@ == g.rules@[i].rhs@
    &&& aug.rules@[d].lhs == g.num_nonterms
    &&& aug.rules@[d].rhs@ == seq![RuleElem::NonTerm(g.top)]
    &&& aug.rules@[d].tag is None
}

impl RuleSet {
    /// The grammar with the rule `__top_dummy ::= <top>` added; returns it
    /// and the index of that rule.
    pub fn augmented(&self) -> (res: (RuleSet, usize))
        requires
            self.wf(),
            self.rules@.len() + 1 < usize::MAX,
            self.num_nonterms + 2 < usize::MAX,
        ensures
            res.0.wf(),
            is_augmentation(*self, res.0),
            res.1 == self.rules@.len(),
    {
        let mut aug = self.copy();
        assert forall|i: int| 0 <= i < aug.rules@.len() implies #[trigger] aug.rule_wf(i) by {
            assert(self.rule_wf(i));
            assert(aug.rules@[i].rhs@ == self.rules@[i].rhs@);
        }
        let dummy = aug.update_top();
        (aug, dummy)
    }
}

} // verus!
