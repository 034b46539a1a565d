//! Director sets of the rules of a grammar: the lookahead symbols that
//! select a rule.
//!
//! For a rule `A ::= α`, the director set is FIRST(α) (as
//! `FirstSet::get_by` computes it) without `Epsilon`; when α may vanish
//! (FIRST(α) holds `EOF`), `EOF` is replaced by FOLLOW(`A`).
use vstd::prelude::*;
use crate::grammar::{RuleElem, RuleSet};
use crate::bitset::{tview, new_row};
use crate::first::{FirstSet, seq_first_at, first_table, elems_of_row, in_universe, elem_index};
use crate::follow::{FollowSet, follow_table};

verus! {

/// Index `k` is in the director set of rule `i` of `g`.
pub open spec fn director_has(g: RuleSet, i: int, k: int) -> bool {
    let f = first_table(g);
    let fo = follow_table(g);
    let nt = g.nt();
    let rhs = g.rules@[i].rhs@;
    if seq_first_at(f, nt, rhs, 0, nt + 1int) {
        (k != nt && k != nt + 1 && seq_first_at(f, nt, rhs, 0, k)) || (k != nt && fo[g.rules@[i].lhs as int][k])
    } else {
        k != nt && seq_first_at(f, nt, rhs, 0, k)
    }
}

/// The director sets of all rules of a grammar, by rule index.
pub struct DirectorSet {
    rows: Vec<Vec<bool>>,
    num_terms: usize,
}

impl View for DirectorSet {
    type V = Seq<Seq<bool>>;

    closed spec fn view(&self) -> Seq<Seq<bool>> {
        tview(self.rows@)
    }
}

impl DirectorSet {
    pub closed spec fn nt(&self) -> nat {
        self.num_terms as nat
    }

    pub closed spec fn wf(&self) -> bool {
        &&& forall|i: int| 0 <= i < self@.len() ==> (#[trigger] self@[i]).len() == self.num_terms + 2
        &&& self.num_terms + 2 < usize::MAX
    }

    /// Computes the director set of every rule.
    pub fn from(ruleset: &RuleSet) -> (res: DirectorSet)
        requires
            ruleset.wf(),
        ensures
            res.wf(),
            res.nt() == ruleset.nt(),
            res@.len() == ruleset.rules@.len(),
            forall|i: int, k: int|
                0 <= i < ruleset.rules@.len() && 0 <= k < ruleset.nt() + 2 ==> #[trigger] res@[i][k]
                    == director_has(*ruleset, i, k),
    {
        let g = ruleset;
        let first = FirstSet::from(g);
        let follow = FollowSet::from(g);
        let nt = g.num_terms;
        let mut rows: Vec<Vec<bool>> = Vec::new();
        let mut i: usize = 0;
        while i < g.rules.len()
            invariant
                g.wf(),
                nt == g.nt(),
                first.wf(),
                first.nt() == g.nt(),
                first.nn() == g.nn(),
                first@ == first_table(*g),
                follow.wf(),
                follow.nt() == g.nt(),
                follow.nn() == g.nn(),
                follow@ == follow_table(*g),
                i <= g.rules@.len(),
                rows@.len() == i,
                forall|j: int| 0 <= j < i ==> (#[trigger] rows@[j])@.len() == nt + 2,
                forall|j: int, k: int|
                    0 <= j < i && 0 <= k < nt + 2 ==> #[trigger] rows@[j]@[k] == director_has(*g, j, k),
            decreases g.rules@.len() - i,
        {
            assert(g.rule_wf(i as int));
            let rule = &g.rules[i];
            assert forall|j: int| 0 <= j < rule.rhs@.len() implies (#[trigger] rule.rhs@[j]).known_in(
                first.nt(),
                first.nn(),
            ) by {
                assert(rule.rhs@[j].valid_in(g.nt(), g.nn()));
            }
            let firsts = first.get_by_from(rule.rhs.as_slice(), 0);
            let nullable = firsts[nt + 1];
            let mut row = new_row(nt + 2);
            let mut k: usize = 0;
            while k < nt + 2
                invariant
                    g.wf(),
                    nt == g.nt(),
                    i < g.rules@.len(),
                    rule == g.rules@[i as int],
                    rule.lhs < g.num_nonterms,
                    follow.wf(),
                    follow.nt() == g.nt(),
                    follow.nn() == g.nn(),
                    follow@ == follow_table(*g),
                    first@ == first_table(*g),
                    first.nt() == g.nt(),
                    firsts@.len() == nt + 2,
                    forall|j: int| 0 <= j < nt + 2 ==> #[trigger] firsts@[j] == seq_first_at(
                        first@,
                        first.nt(),
                        rule.rhs@,
                        0,
                        j,
                    ),
                    nullable == firsts@[nt + 1],
                    row@.len() == nt + 2,
                    k <= nt + 2,
                    forall|j: int| 0 <= j < k ==> #[trigger] row@[j] == director_has(*g, i as int, j),
                decreases nt + 2 - k,
            {
                let b = if nullable {
                    (k != nt && k != nt + 1 && firsts[k]) || (k != nt && follow.contains(rule.lhs, k))
                } else {
                    k != nt && firsts[k]
                };
                row.set(k, b);
                k = k + 1;
            }
            rows.push(row);
            i = i + 1;
        }
        DirectorSet { rows, num_terms: nt }
    }

    /// The director set of rule `rule`; `None` for an index out of range.
    pub fn get(&self, rule: usize) -> (res: Option<Vec<RuleElem>>)
        requires
            self.wf(),
        ensures
            res is None <==> rule >= self@.len(),
            res matches Some(v) ==> v@.no_duplicates(),
            res matches Some(v) ==> forall|e: RuleElem| #[trigger]
                v@.contains(e) <==> (in_universe(e, self.nt()) && self@[rule as int][elem_index(e, self.nt())]),
    {
        if rule >= self.rows.len() {
            return None;
        }
        assert(self@[rule as int] == self.rows@[rule as int]@);
        Some(elems_of_row(&self.rows[rule], self.num_terms))
    }
}

} // verus!
