//! LR parse tables and their construction from the transitions of an
//! automaton.
use vstd::prelude::*;
use crate::grammar::{RuleElem, RuleSet};
use crate::error::{DiagnosticError, LRError, ErrorBody};

verus! {

/// An entry of the action table.
#[derive(Clone, Copy, PartialEq, Eq, Structural, Debug)]
pub enum LRAction {
    /// Read the token and go to the state.
    Shift(usize),
    /// Reduce by the rule of this index.
    Reduce(usize),
    Accept,
    Empty,
}

/// An LR parse table: per state, the action for each token kind, the action
/// at the end of the input, and the target state for each nonterminal; and
/// per rule, its left side, the length of its right side and its tag.
#[derive(Debug)]
pub struct LRTable {
    pub action_table: Vec<Vec<LRAction>>,
    pub eof_action_table: Vec<LRAction>,
    pub goto_table: Vec<Vec<Option<usize>>>,
    pub rules: Vec<(usize, usize, Option<usize>)>,
    pub num_terms: usize,
    pub num_nonterms: usize,
}

/// The target of the last transition `(s, _, x)` in `edges`.
pub open spec fn last_target(edges: Seq<(usize, usize, RuleElem)>, s: int, x: RuleElem) -> Option<usize>
    decreases edges.len(),
{
    if edges.len() == 0 {
        None
    } else if edges.last().0 == s && edges.last().2 == x {
        Some(edges.last().1)
    } else {
        last_target(edges.drop_last(), s, x)
    }
}

pub proof fn lemma_last_target(edges: Seq<(usize, usize, RuleElem)>, s: int, x: RuleElem)
    ensures
        last_target(edges, s, x) is None <==> forall|e: int| 0 <= e < edges.len() ==> !((#[trigger] edges[e]).0 == s && edges[e].2 == x),
        last_target(edges, s, x) matches Some(j) ==> edges.contains((s as usize, j, x)),
    decreases edges.len(),
{
    if edges.len() > 0 {
        lemma_last_target(edges.drop_last(), s, x);
        if last_target(edges, s, x) is None {
            assert forall|e: int| 0 <= e < edges.len() implies !((#[trigger] edges[e]).0 == s && edges[e].2 == x) by {
                if e < edges.len() - 1 {
                    assert(edges.drop_last()[e] == edges[e]);
                }
            }
        } else {
            if !(edges.last().0 == s && edges.last().2 == x) {
                let j = last_target(edges, s, x)->0;
                let q = choose|q: int| 0 <= q < edges.drop_last().len() && edges.drop_last()[q] == (s as usize, j, x);
                assert(edges[q] == (s as usize, j, x));
            } else {
                assert(edges[edges.len() - 1] == (s as usize, edges.last().1, x));
            }
            let e = if edges.last().0 == s && edges.last().2 == x { edges.len() - 1 } else {
                choose|e: int| 0 <= e < edges.drop_last().len() && (#[trigger] edges.drop_last()[e]).0 == s && edges.drop_last()[e].2 == x
            };
            assert(edges[e].0 == s && edges[e].2 == x);
        }
    }
}

/// The transitions are valid for `n` states and the given alphabets.
pub open spec fn edges_valid(edges: Seq<(usize, usize, RuleElem)>, n: nat, nt: nat, nn: nat) -> bool {
    forall|e: int| 0 <= e < edges.len() ==> {
        let (from, to, x) = #[trigger] edges[e];
        from < n && to < n && match x {
            RuleElem::Term(t) => t < nt,
            RuleElem::NonTerm(m) => m < nn,
            _ => true,
        }
    }
}

/// `tok` is a token kind below `nt`, or the end of the input.
pub open spec fn valid_tok(tok: Option<usize>, nt: nat) -> bool {
    tok matches Some(k) ==> k < nt
}

/// The action of a cell: a token column, or the end-of-input column.
pub open spec fn cell_of(action: Seq<Vec<LRAction>>, eof: Seq<LRAction>, s: int, tok: Option<usize>) -> LRAction {
    match tok {
        Some(k) => action[s]@[k as int],
        None => eof[s],
    }
}

impl LRTable {
    pub open spec fn num_states(&self) -> nat {
        self.action_table@.len()
    }

    pub open spec fn action(&self, s: int, tok: Option<usize>) -> LRAction {
        cell_of(self.action_table@, self.eof_action_table@, s, tok)
    }

    pub open spec fn action_ok(&self, a: LRAction) -> bool {
        match a {
            LRAction::Shift(j) => j < self.num_states(),
            LRAction::Reduce(r) => r < self.rules@.len(),
            _ => true,
        }
    }

    /// Shapes and references agree: every row has the width of its
    /// alphabet, and every state and rule named in the table exists.
    pub open spec fn wf(&self) -> bool {
        let n = self.num_states();
        &&& n > 0
        &&& self.eof_action_table@.len() == n
        &&& self.goto_table@.len() == n
        &&& forall|s: int| 0 <= s < n ==> (#[trigger] self.action_table@[s])@.len() == self.num_terms
        &&& forall|s: int| 0 <= s < n ==> (#[trigger] self.goto_table@[s])@.len() == self.num_nonterms
        &&& forall|s: int, k: int| 0 <= s < n && 0 <= k < self.num_terms ==> self.action_ok(#[trigger] self.action_table@[s]@[k])
        &&& forall|s: int| 0 <= s < n ==> self.action_ok(#[trigger] self.eof_action_table@[s])
        &&& forall|s: int, m: int| 0 <= s < n && 0 <= m < self.num_nonterms ==> (#[trigger] self.goto_table@[s]@[m] matches Some(j) ==> j < n)
        &&& forall|r: int| 0 <= r < self.rules@.len() ==> (#[trigger] self.rules@[r]).0 < self.num_nonterms
    }

    fn action_ok_exec(&self, a: LRAction) -> (res: bool)
        ensures
            res == self.action_ok(a),
    {
        match a {
            LRAction::Shift(j) => j < self.action_table.len(),
            LRAction::Reduce(r) => r < self.rules.len(),
            _ => true,
        }
    }

    /// Whether the table is well formed (`wf`).
    pub fn check(&self) -> (res: bool)
        ensures
            res == self.wf(),
    {
        let n = self.action_table.len();
        if n == 0 || self.eof_action_table.len() != n || self.goto_table.len() != n {
            return false;
        }
        let mut s: usize = 0;
        while s < n
            invariant
                n == self.num_states(),
                n > 0,
                self.eof_action_table@.len() == n,
                self.goto_table@.len() == n,
                s <= n,
                forall|q: int| 0 <= q < s ==> (#[trigger] self.action_table@[q])@.len() == self.num_terms,
                forall|q: int| 0 <= q < s ==> (#[trigger] self.goto_table@[q])@.len() == self.num_nonterms,
                forall|q: int, k: int| 0 <= q < s && 0 <= k < self.num_terms ==> self.action_ok(#[trigger] self.action_table@[q]@[k]),
                forall|q: int| 0 <= q < s ==> self.action_ok(#[trigger] self.eof_action_table@[q]),
                forall|q: int, m: int| 0 <= q < s && 0 <= m < self.num_nonterms ==> (#[trigger] self.goto_table@[q]@[m] matches Some(j) ==> j < n),
            decreases n - s,
        {
            let row = &self.action_table[s];
            let grow = &self.goto_table[s];
            if row.len() != self.num_terms || grow.len() != self.num_nonterms {
                return false;
            }
            if !self.action_ok_exec(self.eof_action_table[s]) {
                return false;
            }
            let mut k: usize = 0;
            while k < row.len()
                invariant
                    n == self.num_states(),
                    s < n,
                    *row == self.action_table@[s as int],
                    row@.len() == self.num_terms,
                    k <= row@.len(),
                    forall|kk: int| 0 <= kk < k ==> self.action_ok(#[trigger] self.action_table@[s as int]@[kk]),
                decreases row@.len() - k,
            {
                if !self.action_ok_exec(row[k]) {
                    return false;
                }
                k = k + 1;
            }
            let mut m: usize = 0;
            while m < grow.len()
                invariant
                    n == self.num_states(),
                    s < n,
                    *grow == self.goto_table@[s as int],
                    m <= grow@.len(),
                    forall|mm: int| 0 <= mm < m ==> (#[trigger] self.goto_table@[s as int]@[mm] matches Some(j) ==> j < n),
                decreases grow@.len() - m,
            {
                match grow[m] {
                    Some(j) => {
                        if j >= n {
                            return false;
                        }
                    },
                    None => {},
                }
                m = m + 1;
            }
            s = s + 1;
        }
        let mut r: usize = 0;
        while r < self.rules.len()
            invariant
                r <= self.rules@.len(),
                forall|q: int| 0 <= q < r ==> (#[trigger] self.rules@[q]).0 < self.num_nonterms,
            decreases self.rules@.len() - r,
        {
            if self.rules[r].0 >= self.num_nonterms {
                return false;
            }
            r = r + 1;
        }
        true
    }

    /// The action for token kind `token` in state `state`.
    pub fn get_action(&self, state: usize, token: usize) -> (res: LRAction)
        requires
            self.wf(),
            state < self.num_states(),
            token < self.num_terms,
        ensures
            res == self.action(state as int, Some(token)),
    {
        self.action_table[state][token]
    }

    /// The action at the end of the input in state `state`.
    pub fn get_eof_action(&self, state: usize) -> (res: LRAction)
        requires
            self.wf(),
            state < self.num_states(),
        ensures
            res == self.action(state as int, None),
    {
        self.eof_action_table[state]
    }

    /// The state to go to from `state` after reducing to `nonterm`.
    pub fn get_goto(&self, state: usize, nonterm: usize) -> (res: Option<usize>)
        requires
            self.wf(),
            state < self.num_states(),
            nonterm < self.num_nonterms,
        ensures
            res == self.goto_table@[state as int]@[nonterm as int],
    {
        self.goto_table[state][nonterm]
    }
}

/// An LR parse table under construction.
pub struct LRTableBuilder {
    pub action_table: Vec<Vec<LRAction>>,
    pub eof_action_table: Vec<LRAction>,
    pub goto_table: Vec<Vec<Option<usize>>>,
    pub rules: Vec<(usize, usize, Option<usize>)>,
    pub num_terms: usize,
    pub num_nonterms: usize,
}

impl LRTableBuilder {
    pub open spec fn num_states(&self) -> nat {
        self.action_table@.len()
    }

    pub open spec fn cell(&self, s: int, tok: Option<usize>) -> LRAction {
        cell_of(self.action_table@, self.eof_action_table@, s, tok)
    }

    pub open spec fn shape_ok(&self) -> bool {
        let n = self.num_states();
        &&& self.eof_action_table@.len() == n
        &&& self.goto_table@.len() == n
        &&& forall|s: int| 0 <= s < n ==> (#[trigger] self.action_table@[s])@.len() == self.num_terms
        &&& forall|s: int| 0 <= s < n ==> (#[trigger] self.goto_table@[s])@.len() == self.num_nonterms
    }

    /// The rules of `g`, by index: left side, length of the right side, tag.
    pub open spec fn rules_of(g: RuleSet, rules: Seq<(usize, usize, Option<usize>)>) -> bool {
        &&& rules.len() == g.rules@.len()
        &&& forall|r: int| 0 <= r < rules.len() ==> #[trigger] rules[r] == (g.rules@[r].lhs, g.rules@[r].rhs@.len() as usize, g.rules@[r].tag)
    }

    /// A table for `num_states` states with the shift and goto entries of
    /// the transitions `edges` (the last transition wins), every other entry
    /// empty.
    pub fn from(ruleset: &RuleSet, num_states: usize, edges: &Vec<(usize, usize, RuleElem)>) -> (res: LRTableBuilder)
        requires
            ruleset.wf(),
            edges_valid(edges@, num_states as nat, ruleset.nt(), ruleset.nn()),
        ensures
            res.shape_ok(),
            res.num_states() == num_states,
            res.num_terms == ruleset.num_terms,
            res.num_nonterms == ruleset.num_nonterms,
            LRTableBuilder::rules_of(*ruleset, res.rules@),
            forall|s: int, k: int| 0 <= s < num_states && 0 <= k < ruleset.num_terms ==> #[trigger] res.cell(s, Some(k as usize))
                == match last_target(edges@, s, RuleElem::Term(k as usize)) {
                    Some(j) => LRAction::Shift(j),
                    None => LRAction::Empty,
                },
            forall|s: int| 0 <= s < num_states ==> #[trigger] res.cell(s, None) == LRAction::Empty,
            forall|s: int, m: int| 0 <= s < num_states && 0 <= m < ruleset.num_nonterms ==> #[trigger] res.goto_table@[s]@[m]
                == last_target(edges@, s, RuleElem::NonTerm(m as usize)),
    {
        let nt = ruleset.num_terms;
        let nn = ruleset.num_nonterms;
        let mut action_table: Vec<Vec<LRAction>> = Vec::new();
        let mut eof_action_table: Vec<LRAction> = Vec::new();
        let mut goto_table: Vec<Vec<Option<usize>>> = Vec::new();
        let mut i: usize = 0;
        while i < num_states
            invariant
                i <= num_states,
                action_table@.len() == i,
                eof_action_table@.len() == i,
                goto_table@.len() == i,
                forall|s: int| 0 <= s < i ==> (#[trigger] action_table@[s])@.len() == nt,
                forall|s: int| 0 <= s < i ==> (#[trigger] goto_table@[s])@.len() == nn,
                forall|s: int, k: int| 0 <= s < i && 0 <= k < nt ==> #[trigger] action_table@[s]@[k] == LRAction::Empty,
                forall|s: int| 0 <= s < i ==> #[trigger] eof_action_table@[s] == LRAction::Empty,
                forall|s: int, m: int| 0 <= s < i && 0 <= m < nn ==> #[trigger] goto_table@[s]@[m] is None,
            decreases num_states - i,
        {
            let mut arow: Vec<LRAction> = Vec::new();
            let mut k: usize = 0;
            while k < nt
                invariant
                    k <= nt,
                    arow@.len() == k,
                    forall|q: int| 0 <= q < k ==> arow@[q] == LRAction::Empty,
                decreases nt - k,
            {
                arow.push(LRAction::Empty);
                k = k + 1;
            }
            let mut grow: Vec<Option<usize>> = Vec::new();
            let mut m: usize = 0;
            while m < nn
                invariant
                    m <= nn,
                    grow@.len() == m,
                    forall|q: int| 0 <= q < m ==> grow@[q] is None,
                decreases nn - m,
            {
                grow.push(None);
                m = m + 1;
            }
            action_table.push(arow);
            eof_action_table.push(LRAction::Empty);
            goto_table.push(grow);
            i = i + 1;
        }
        let mut e: usize = 0;
        while e < edges.len()
            invariant
                edges_valid(edges@, num_states as nat, nt as nat, nn as nat),
                e <= edges@.len(),
                action_table@.len() == num_states,
                eof_action_table@.len() == num_states,
                goto_table@.len() == num_states,
                forall|s: int| 0 <= s < num_states ==> (#[trigger] action_table@[s])@.len() == nt,
                forall|s: int| 0 <= s < num_states ==> (#[trigger] goto_table@[s])@.len() == nn,
                forall|s: int, k: int| 0 <= s < num_states && 0 <= k < nt ==> #[trigger] action_table@[s]@[k]
                    == match last_target(edges@.subrange(0, e as int), s, RuleElem::Term(k as usize)) {
                        Some(j) => LRAction::Shift(j),
                        None => LRAction::Empty,
                    },
                forall|s: int| 0 <= s < num_states ==> #[trigger] eof_action_table@[s] == LRAction::Empty,
                forall|s: int, m: int| 0 <= s < num_states && 0 <= m < nn ==> #[trigger] goto_table@[s]@[m]
                    == last_target(edges@.subrange(0, e as int), s, RuleElem::NonTerm(m as usize)),
            decreases edges@.len() - e,
        {
            let (from, to, x) = edges[e];
            let ghost pre = edges@.subrange(0, e as int);
            let ghost post = edges@.subrange(0, e + 1);
            assert(post.drop_last() == pre);
            assert(post.last() == (from, to, x));
            let ghost old_a = action_table@;
            let ghost old_g = goto_table@;
            match x {
                RuleElem::Term(t) => {
                    action_table[from].set(t, LRAction::Shift(to));
                },
                RuleElem::NonTerm(m) => {
                    goto_table[from].set(m, Some(to));
                },
                _ => {},
            }
            assert forall|s: int, k: int| 0 <= s < num_states && 0 <= k < nt implies #[trigger] action_table@[s]@[k]
                == match last_target(post, s, RuleElem::Term(k as usize)) {
                    Some(j) => LRAction::Shift(j),
                    None => LRAction::Empty,
                } by {
                if s != from {
                    assert(action_table@[s] == old_a[s]);
                }
            }
            assert forall|s: int, m: int| 0 <= s < num_states && 0 <= m < nn implies #[trigger] goto_table@[s]@[m]
                == last_target(post, s, RuleElem::NonTerm(m as usize)) by {
                if s != from {
                    assert(goto_table@[s] == old_g[s]);
                }
            }
            e = e + 1;
        }
        assert(edges@.subrange(0, edges@.len() as int) == edges@);
        let mut rules: Vec<(usize, usize, Option<usize>)> = Vec::new();
        let mut r: usize = 0;
        while r < ruleset.rules.len()
            invariant
                r <= ruleset.rules@.len(),
                rules@.len() == r,
                forall|q: int| 0 <= q < r ==> #[trigger] rules@[q] == (ruleset.rules@[q].lhs, ruleset.rules@[q].rhs@.len() as usize, ruleset.rules@[q].tag),
            decreases ruleset.rules@.len() - r,
        {
            let rule = &ruleset.rules[r];
            rules.push((rule.lhs, rule.rhs.len(), rule.tag));
            r = r + 1;
        }
        LRTableBuilder { action_table, eof_action_table, goto_table, rules, num_terms: nt, num_nonterms: nn }
    }

    /// Sets a cell.
    pub fn set(&mut self, state: usize, token: Option<usize>, action: LRAction)
        requires
            old(self).shape_ok(),
            state < old(self).num_states(),
            token matches Some(k) ==> k < old(self).num_terms,
        ensures
            final(self).shape_ok(),
            final(self).num_states() == old(self).num_states(),
            final(self).num_terms == old(self).num_terms,
            final(self).num_nonterms == old(self).num_nonterms,
            final(self).rules == old(self).rules,
            final(self).goto_table == old(self).goto_table,
            forall|s: int, t: Option<usize>| 0 <= s < old(self).num_states() && valid_tok(t, old(self).num_terms as nat) ==> #[trigger] final(self).cell(s, t) == if s == state && t == token {
                action
            } else {
                old(self).cell(s, t)
            },
    {
        match token {
            Some(k) => {
                self.action_table[state].set(k, action);
            },
            None => {
                self.eof_action_table.set(state, action);
            },
        }
    }

    /// Sets a cell that is empty or holds `action` already; a cell that
    /// holds another action is a conflict between that action and `action`,
    /// and nothing changes.
    pub fn try_set(&mut self, state: usize, token: Option<usize>, action: LRAction) -> (res: Result<(), DiagnosticError>)
        requires
            old(self).shape_ok(),
            state < old(self).num_states(),
            token matches Some(k) ==> k < old(self).num_terms,
        ensures
            final(self).shape_ok(),
            final(self).num_states() == old(self).num_states(),
            final(self).num_terms == old(self).num_terms,
            final(self).num_nonterms == old(self).num_nonterms,
            final(self).rules == old(self).rules,
            final(self).goto_table == old(self).goto_table,
            res is Ok <==> (old(self).cell(state as int, token) == LRAction::Empty || old(self).cell(state as int, token) == action),
            res is Ok ==> forall|s: int, t: Option<usize>| 0 <= s < old(self).num_states() && valid_tok(t, old(self).num_terms as nat) ==> #[trigger] final(self).cell(s, t) == if s == state && t == token {
                action
            } else {
                old(self).cell(s, t)
            },
            res matches Err(e) ==> e.err == ErrorBody::LR(LRError::Conflilct { action_a: old(self).cell(state as int, token), action_b: action })
                && e.diagnostics is None && *final(self) == *old(self),
    {
        let current = match token {
            Some(k) => self.action_table[state][k],
            None => self.eof_action_table[state],
        };
        if current != LRAction::Empty && current != action {
            return Err(LRError::new_conflict(current, action));
        }
        self.set(state, token, action);
        Ok(())
    }

    /// The table.
    pub fn build(self) -> (res: LRTable)
        ensures
            res.action_table == self.action_table,
            res.eof_action_table == self.eof_action_table,
            res.goto_table == self.goto_table,
            res.rules == self.rules,
            res.num_terms == self.num_terms,
            res.num_nonterms == self.num_nonterms,
    {
        LRTable {
            action_table: self.action_table,
            eof_action_table: self.eof_action_table,
            goto_table: self.goto_table,
            rules: self.rules,
            num_terms: self.num_terms,
            num_nonterms: self.num_nonterms,
        }
    }
}

} // verus!
