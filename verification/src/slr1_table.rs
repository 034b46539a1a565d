//! The SLR(1) parse table and the SLR(1) parser.
use vstd::prelude::*;
use crate::error::is_conflict;
use crate::automaton::Automaton;
use crate::grammar::{RuleSet, RuleElem, is_augmentation};
use crate::lr0::{LR0Item, next_elem, all_valid, item_valid};
use crate::lr0_dfa::{LR0DFA, lr0_automaton, lemma_lr0_edges_valid, has_top_rule};
use crate::lr0_table::is_lr0_reduce_state;
use crate::follow::{FollowSet, full_follow_table};
use crate::marks::{Mark, marks_of, mark_view, marks_valid, build_table, table_conflict_free, table_matches, las_has, lemma_cell_after_reduces, lemma_cell_after_source, lemma_cell_after_accepts};
use crate::table::{LRAction, valid_tok};
use crate::table::LRTable;
use crate::token::Token;
use crate::driver::{ParseEvent, EventKind};
use crate::parser::{parse, parse_run, events_match};
use crate::error::DiagnosticError;

verus! {

/// The marks of an SLR(1) state with the items `items` (in order): each
/// completed item `A -> α .` reduces by its rule on FOLLOW(A) (`fo` is the
/// table of FOLLOW sets with rule ends); the completed start item (rule `dummy`) then also
/// accepts at the end of the input.
pub open spec fn slr1_marks(g: RuleSet, dummy: int, fo: Seq<Seq<bool>>, items: Seq<LR0Item>) -> Seq<(usize, Seq<bool>, bool)>
    decreases items.len(),
{
    if items.len() == 0 {
        seq![]
    } else {
        let rest = slr1_marks(g, dummy, fo, items.drop_last());
        let it = items.last();
        if next_elem(g, it) is None {
            rest.push((it.rule, fo[g.rules@[it.rule as int].lhs as int], it.rule == dummy))
        } else {
            rest
        }
    }
}

/// The marks of all states.
pub open spec fn slr1_table_marks(g: RuleSet, dummy: int, items: Seq<Seq<LR0Item>>) -> Seq<Seq<(usize, Seq<bool>, bool)>> {
    Seq::new(items.len(), |s: int| slr1_marks(g, dummy, full_follow_table(g), items[s]))
}

proof fn lemma_slr1_marks_valid(g: RuleSet, dummy: int, fo: Seq<Seq<bool>>, items: Seq<LR0Item>)
    requires
        g.wf(),
        all_valid(g, items),
        forall|m: int| 0 <= m < g.nn() ==> (#[trigger] fo[m]).len() == g.nt() + 2,
    ensures
        marks_valid(slr1_marks(g, dummy, fo, items), g.nt(), g.rules@.len()),
    decreases items.len(),
{
    if items.len() > 0 {
        assert(all_valid(g, items.drop_last())) by {
            assert forall|j: int| 0 <= j < items.drop_last().len() implies item_valid(g, #[trigger] items.drop_last()[j]) by {
                assert(items.drop_last()[j] == items[j]);
            }
        }
        lemma_slr1_marks_valid(g, dummy, fo, items.drop_last());
        let it = items[items.len() - 1];
        assert(item_valid(g, it));
        assert(g.rule_wf(it.rule as int));
    }
}

/// The marks of one state.
fn slr1_state_marks(g: &RuleSet, dummy: usize, follow: &FollowSet, items: &Vec<LR0Item>) -> (res: Vec<Mark>)
    requires
        g.wf(),
        follow.wf(),
        follow.nt() == g.nt(),
        follow.nn() == g.nn(),
        all_valid(*g, items@),
    ensures
        marks_of(res@) == slr1_marks(*g, dummy as int, follow@, items@),
{
    let mut res: Vec<Mark> = Vec::new();
    let mut i: usize = 0;
    while i < items.len()
        invariant
            g.wf(),
            follow.wf(),
            follow.nt() == g.nt(),
            follow.nn() == g.nn(),
            all_valid(*g, items@),
            i <= items@.len(),
            marks_of(res@) == slr1_marks(*g, dummy as int, follow@, items@.subrange(0, i as int)),
        decreases items@.len() - i,
    {
        let item = items[i];
        assert(item_valid(*g, items@[i as int]));
        let ghost pre = items@.subrange(0, i as int);
        let ghost cur = items@.subrange(0, i + 1);
        assert(cur.drop_last() == pre);
        assert(cur.last() == item);
        let ghost old_res = res@;
        if is_lr0_reduce_state(g, &item) {
            assert(g.rule_wf(item.rule as int));
            let lhs = g.rules[item.rule].lhs;
            let m = Mark { rule: item.rule, las: follow.row(lhs), accept: item.rule == dummy };
            res.push(m);
            assert(marks_of(res@) == marks_of(old_res).push(mark_view(res@[res@.len() - 1])));
        }
        i = i + 1;
    }
    assert(items@.subrange(0, items@.len() as int) == items@);
    res
}

/// The SLR(1) parse table of a grammar.
pub struct SLR1Table {}

impl SLR1Table {
    /// Builds the SLR(1) parse table of `ruleset`: adds the start rule
    /// `__top_dummy ::= <top>`, builds the LR(0) automaton and the FOLLOW
    /// sets with rule ends (`FollowSet::with_rule_ends`: FOLLOW of a left side
    /// flows to the nonterminal that ends its rule, which the parses of
    /// `10 + 20` and the like need; `FollowSet::from` does not do this), and
    /// marks in each state every completed kernel item `A -> α .` as a
    /// reduction on the columns of FOLLOW(A), and the completed start item
    /// also as acceptance at the end of the input. Fails with a conflict when
    /// two reductions, or a shift and a reduction, fall into one cell.
    pub fn try_from(ruleset: &RuleSet) -> (res: Result<LRTable, DiagnosticError>)
        requires
            ruleset.wf(),
            ruleset.rules@.len() + 1 < usize::MAX,
            ruleset.num_nonterms + 2 < usize::MAX,
        ensures
            exists|aug: RuleSet, ks: Seq<Seq<LR0Item>>, items: Seq<Seq<LR0Item>>, nexts: Seq<Seq<(RuleElem, usize)>>, edges: Seq<(usize, usize, RuleElem)>|
                #![trigger lr0_automaton(aug, ks, items, nexts, edges)]
                {
                    &&& is_augmentation(*ruleset, aug)
                    &&& lr0_automaton(aug, ks, items, nexts, edges)
                    &&& (res is Ok <==> table_conflict_free(edges, slr1_table_marks(aug, ruleset.rules@.len() as int, ks), aug.nt()))
                    &&& (res matches Ok(t) ==> table_matches(t, aug, edges, slr1_table_marks(aug, ruleset.rules@.len() as int, ks)))
                },
            res matches Err(e) ==> is_conflict(e),
    {
        let (aug, dummy) = ruleset.augmented();
        proof {
            assert(aug.rules@[dummy as int].lhs == aug.top);
            assert(has_top_rule(aug));
        }
        let follow = FollowSet::with_rule_ends(&aug);
        let dfa = LR0DFA::from(&aug);
        let ghost ks = dfa.kernels();
        let ghost items = dfa.item_sets();
        let ghost nexts = dfa.nexts();
        proof {
            lemma_lr0_edges_valid(aug, ks, items, nexts, dfa.edges@);
        }
        let n = dfa.len();
        let mut marks: Vec<Vec<Mark>> = Vec::new();
        let mut s: usize = 0;
        while s < n
            invariant
                aug.wf(),
                follow.wf(),
                follow.nt() == aug.nt(),
                follow.nn() == aug.nn(),
                follow@ == full_follow_table(aug),
                n == dfa.nodes@.len(),
                dfa.is_lr0_automaton(aug),
                ks == dfa.kernels(),
                s <= n,
                marks@.len() == s,
                forall|q: int| 0 <= q < s ==> marks_of((#[trigger] marks@[q])@) == slr1_marks(aug, dummy as int, full_follow_table(aug), ks[q]),
            decreases n - s,
        {
            assert(all_valid(aug, ks[s as int]));
            assert(ks[s as int] == dfa.nodes@[s as int].kernel@);
            let m = slr1_state_marks(&aug, dummy, &follow, &dfa.nodes[s].kernel);
            marks.push(m);
            s = s + 1;
        }
        let ghost all = slr1_table_marks(aug, dummy as int, ks);
        proof {
            assert forall|q: int| 0 <= q < marks@.len() implies marks_valid(marks_of((#[trigger] marks@[q])@), aug.nt(), aug.rules@.len()) by {
                lemma_slr1_marks_valid(aug, dummy as int, full_follow_table(aug), ks[q]);
            }
            assert(Seq::new(marks@.len(), |q: int| marks_of(marks@[q]@)) == all);
        }
        let res = build_table(&aug, &dfa.edges, &marks);
        proof {
            assert(lr0_automaton(aug, ks, items, nexts, dfa.edges@));
        }
        res
    }
}

/// The SLR(1) parser: the SLR(1) table of a grammar and the LR driver.
pub struct SLR1 {
    pub table: LRTable,
}

impl SLR1 {
    /// The parser of `ruleset`; fails where its SLR(1) table has a conflict.
    pub fn try_from(ruleset: &RuleSet) -> (res: Result<SLR1, DiagnosticError>)
        requires
            ruleset.wf(),
            ruleset.rules@.len() + 1 < usize::MAX,
            ruleset.num_nonterms + 2 < usize::MAX,
        ensures
            exists|aug: RuleSet, ks: Seq<Seq<LR0Item>>, items: Seq<Seq<LR0Item>>, nexts: Seq<Seq<(RuleElem, usize)>>, edges: Seq<(usize, usize, RuleElem)>|
                #![trigger lr0_automaton(aug, ks, items, nexts, edges)]
                {
                    &&& is_augmentation(*ruleset, aug)
                    &&& lr0_automaton(aug, ks, items, nexts, edges)
                    &&& (res is Ok <==> table_conflict_free(edges, slr1_table_marks(aug, ruleset.rules@.len() as int, ks), aug.nt()))
                    &&& (res matches Ok(p) ==> table_matches(p.table, aug, edges, slr1_table_marks(aug, ruleset.rules@.len() as int, ks)))
                },
            res matches Err(e) ==> is_conflict(e),
    {
        match SLR1Table::try_from(ruleset) {
            Ok(table) => Ok(SLR1 { table }),
            Err(e) => Err(e),
        }
    }

    /// Parses `tokens`, reporting the events of the LR driver.
    pub fn run<'input>(&self, tokens: &Vec<Token<'input>>) -> (events: Vec<ParseEvent<'input>>)
        requires
            self.table.wf(),
            forall|i: int| 0 <= i < tokens@.len() ==> (#[trigger] tokens@[i]).kind < self.table.num_terms,
        ensures
            exists|fuel: nat, evs: Seq<(EventKind, nat)>|
                parse_run(self.table, tokens@, fuel) == Some(evs) && events_match(events@, evs, tokens@),
    {
        parse(&self.table, tokens)
    }
}

/// Every completed item of a state has a mark that reduces by its rule on
/// FOLLOW of its left side.
proof fn lemma_slr1_marks_item(g: RuleSet, dummy: int, fo: Seq<Seq<bool>>, items: Seq<LR0Item>, i: int)
    requires
        0 <= i < items.len(),
        next_elem(g, items[i]) is None,
    ensures
        exists|m: int| 0 <= m < slr1_marks(g, dummy, fo, items).len()
            && (#[trigger] slr1_marks(g, dummy, fo, items)[m]).0 == items[i].rule
            && slr1_marks(g, dummy, fo, items)[m].1 == fo[g.rules@[items[i].rule as int].lhs as int],
    decreases items.len(),
{
    let rest = slr1_marks(g, dummy, fo, items.drop_last());
    let all = slr1_marks(g, dummy, fo, items);
    if i == items.len() - 1 {
        assert(all[rest.len() as int].0 == items[i].rule);
    } else {
        assert(items.drop_last()[i] == items[i]);
        lemma_slr1_marks_item(g, dummy, fo, items.drop_last(), i);
        let m = choose|m: int| 0 <= m < rest.len() && (#[trigger] rest[m]).0 == items[i].rule
            && rest[m].1 == fo[g.rules@[items[i].rule as int].lhs as int];
        assert(all[m] == rest[m]);
    }
}

/// In an SLR(1) table built without conflict, every completed kernel item
/// `A -> α .` of a state reduces by its rule on every token of FOLLOW(A)
/// (with rule ends): no completed item is passed over.
pub proof fn lemma_slr1_table_reduces(
    t: LRTable,
    aug: RuleSet,
    dummy: int,
    ks: Seq<Seq<LR0Item>>,
    edges: Seq<(usize, usize, RuleElem)>,
    s: int,
    i: int,
    k: usize,
)
    requires
        table_matches(t, aug, edges, slr1_table_marks(aug, dummy, ks)),
        0 <= s < ks.len(),
        0 <= i < ks[s].len(),
        next_elem(aug, ks[s][i]) is None,
        k < aug.nt(),
        full_follow_table(aug)[aug.rules@[ks[s][i].rule as int].lhs as int][k as int],
    ensures
        t.action(s, Some(k)) == LRAction::Reduce(ks[s][i].rule),
{
    let marks = slr1_table_marks(aug, dummy, ks)[s];
    lemma_slr1_marks_item(aug, dummy, full_follow_table(aug), ks[s], i);
    let m = choose|m: int| 0 <= m < marks.len() && (#[trigger] marks[m]).0 == ks[s][i].rule
        && marks[m].1 == full_follow_table(aug)[aug.rules@[ks[s][i].rule as int].lhs as int];
    assert(valid_tok(Some(k), aug.nt()));
    assert(las_has(marks[m].1, Some(k), aug.nt()));
    lemma_cell_after_reduces(crate::marks::base_cell(edges, s, Some(k)), marks, k, aug.nt(), m);
}

/// Each mark of an SLR(1) state comes from a completed item of that state,
/// by its rule on the FOLLOW row of its left side; the item's index is
/// returned.
proof fn lemma_slr1_mark_source(g: RuleSet, dummy: int, fo: Seq<Seq<bool>>, items: Seq<LR0Item>, m: int) -> (i: int)
    requires
        0 <= m < slr1_marks(g, dummy, fo, items).len(),
    ensures
        0 <= i < items.len(),
        next_elem(g, items[i]) is None,
        slr1_marks(g, dummy, fo, items)[m].0 == items[i].rule,
        slr1_marks(g, dummy, fo, items)[m].1 == fo[g.rules@[items[i].rule as int].lhs as int],
    decreases items.len(),
{
    let p = items.drop_last();
    let rest = slr1_marks(g, dummy, fo, p);
    let all = slr1_marks(g, dummy, fo, items);
    let it = items.last();
    if next_elem(g, it) is None {
        assert(all == rest.push((it.rule, fo[g.rules@[it.rule as int].lhs as int], it.rule == dummy)));
        if m < rest.len() {
            let i = lemma_slr1_mark_source(g, dummy, fo, p, m);
            assert(p[i] == items[i]);
            i
        } else {
            items.len() - 1
        }
    } else {
        assert(all == rest);
        let i = lemma_slr1_mark_source(g, dummy, fo, p, m);
        assert(p[i] == items[i]);
        i
    }
}

/// In an SLR(1) table, a reduction by rule `r` in the cell of a token (or
/// of the end of the input) comes from a completed kernel item `A -> α .`
/// of that state by rule `r` with that token (or the end of the input) in
/// FOLLOW(A) (with rule ends): no other column reduces.
pub proof fn lemma_slr1_table_reduce_source(
    t: LRTable,
    aug: RuleSet,
    dummy: int,
    ks: Seq<Seq<LR0Item>>,
    edges: Seq<(usize, usize, RuleElem)>,
    s: int,
    tok: Option<usize>,
    r: usize,
)
    requires
        table_matches(t, aug, edges, slr1_table_marks(aug, dummy, ks)),
        0 <= s < ks.len(),
        valid_tok(tok, aug.nt()),
        t.action(s, tok) == LRAction::Reduce(r),
    ensures
        exists|i: int| #![trigger ks[s][i]]
            0 <= i < ks[s].len() && next_elem(aug, ks[s][i]) is None && ks[s][i].rule == r
                && las_has(full_follow_table(aug)[aug.rules@[r as int].lhs as int], tok, aug.nt()),
{
    let marks = slr1_table_marks(aug, dummy, ks)[s];
    let nt = aug.nt();
    assert(crate::marks::base_cell(edges, s, tok) != LRAction::Reduce(r));
    lemma_cell_after_source(crate::marks::base_cell(edges, s, tok), marks, tok, nt, r);
    let m = choose|m: int| 0 <= m < marks.len() && (#[trigger] marks[m]).0 == r && las_has(marks[m].1, tok, nt);
    let i = lemma_slr1_mark_source(aug, dummy, full_follow_table(aug), ks[s], m);
    assert(next_elem(aug, ks[s][i]) is None);
}

/// A completed start item of a state has a mark that accepts.
proof fn lemma_slr1_marks_accept(g: RuleSet, dummy: int, fo: Seq<Seq<bool>>, items: Seq<LR0Item>, i: int)
    requires
        0 <= i < items.len(),
        next_elem(g, items[i]) is None,
        items[i].rule == dummy,
    ensures
        exists|m: int| 0 <= m < slr1_marks(g, dummy, fo, items).len() && (#[trigger] slr1_marks(g, dummy, fo, items)[m]).2,
    decreases items.len(),
{
    let rest = slr1_marks(g, dummy, fo, items.drop_last());
    let all = slr1_marks(g, dummy, fo, items);
    if i == items.len() - 1 {
        assert(all[rest.len() as int].2);
    } else {
        assert(items.drop_last()[i] == items[i]);
        lemma_slr1_marks_accept(g, dummy, fo, items.drop_last(), i);
        let m = choose|m: int| 0 <= m < rest.len() && (#[trigger] rest[m]).2;
        assert(all[m] == rest[m]);
    }
}

/// In an SLR(1) table built without conflict, a state with the completed
/// start item accepts at the end of the input.
pub proof fn lemma_slr1_table_accepts(
    t: LRTable,
    aug: RuleSet,
    dummy: int,
    ks: Seq<Seq<LR0Item>>,
    edges: Seq<(usize, usize, RuleElem)>,
    s: int,
    i: int,
)
    requires
        table_matches(t, aug, edges, slr1_table_marks(aug, dummy, ks)),
        0 <= s < ks.len(),
        0 <= i < ks[s].len(),
        next_elem(aug, ks[s][i]) is None,
        ks[s][i].rule == dummy,
    ensures
        t.action(s, None) == LRAction::Accept,
{
    let marks = slr1_table_marks(aug, dummy, ks)[s];
    lemma_slr1_marks_accept(aug, dummy, full_follow_table(aug), ks[s], i);
    let m = choose|m: int| 0 <= m < marks.len() && (#[trigger] marks[m]).2;
    assert(valid_tok(None, aug.nt()));
    lemma_cell_after_accepts(crate::marks::base_cell(edges, s, None), marks, aug.nt(), m);
}

} // verus!
