//! The LR(0) parse table and the LR(0) parser.
use vstd::prelude::*;
use crate::error::is_conflict;
use crate::automaton::Automaton;
use crate::grammar::{RuleSet, is_augmentation};
use crate::lr0::{LR0Item, next_elem, all_valid, item_valid};
use crate::lr0_dfa::{LR0DFA, lr0_automaton, lemma_lr0_edges_valid, has_top_rule};
use crate::marks::{Mark, marks_of, mark_view, marks_valid, build_table, table_conflict_free, table_matches, las_has, lemma_cell_after_reduces, lemma_cell_after_shift_kept, lemma_cell_after_accepts};
use crate::table::{LRAction, valid_tok};
use crate::bitset::{new_row, full_row};
use crate::table::LRTable;
use crate::token::Token;
use crate::driver::{ParseEvent, EventKind};
use crate::parser::{parse, parse_run, events_match};
use crate::error::DiagnosticError;

verus! {

/// The marks of an LR(0) state with the items `items` (in order): each
/// completed item `A -> α .` reduces by its rule on every token and at the
/// end of the input, except the completed start item `__top_dummy -> top .`
/// (rule `dummy`), which accepts at the end of the input.
pub open spec fn lr0_marks(g: RuleSet, dummy: int, items: Seq<LR0Item>) -> Seq<(usize, Seq<bool>, bool)>
    decreases items.len(),
{
    if items.len() == 0 {
        seq![]
    } else {
        let rest = lr0_marks(g, dummy, items.drop_last());
        let it = items.last();
        if next_elem(g, it) is None {
            if it.rule == dummy {
                rest.push((it.rule, Seq::new(g.nt() + 2, |k: int| false), true))
            } else {
                rest.push((it.rule, Seq::new(g.nt() + 2, |k: int| true), false))
            }
        } else {
            rest
        }
    }
}

/// The marks of all states.
pub open spec fn lr0_table_marks(g: RuleSet, dummy: int, items: Seq<Seq<LR0Item>>) -> Seq<Seq<(usize, Seq<bool>, bool)>> {
    Seq::new(items.len(), |s: int| lr0_marks(g, dummy, items[s]))
}

/// The item is complete: its dot stands at the end of the rule.
pub fn is_lr0_reduce_state(g: &RuleSet, item: &LR0Item) -> (res: bool)
    requires
        item_valid(*g, *item),
    ensures
        res == (next_elem(*g, *item) is None),
{
    item.check_next_elem(g).is_none()
}

proof fn lemma_lr0_marks_valid(g: RuleSet, dummy: int, items: Seq<LR0Item>)
    requires
        all_valid(g, items),
    ensures
        marks_valid(lr0_marks(g, dummy, items), g.nt(), g.rules@.len()),
    decreases items.len(),
{
    if items.len() > 0 {
        assert(all_valid(g, items.drop_last())) by {
            assert forall|j: int| 0 <= j < items.drop_last().len() implies item_valid(g, #[trigger] items.drop_last()[j]) by {
                assert(items.drop_last()[j] == items[j]);
            }
        }
        lemma_lr0_marks_valid(g, dummy, items.drop_last());
        assert(item_valid(g, items[items.len() - 1]));
    }
}

/// The marks of one state.
fn lr0_state_marks(g: &RuleSet, dummy: usize, items: &Vec<LR0Item>) -> (res: Vec<Mark>)
    requires
        g.wf(),
        all_valid(*g, items@),
    ensures
        marks_of(res@) == lr0_marks(*g, dummy as int, items@),
{
    let w = g.num_terms + 2;
    let mut res: Vec<Mark> = Vec::new();
    let mut i: usize = 0;
    while i < items.len()
        invariant
            g.wf(),
            w == g.nt() + 2,
            all_valid(*g, items@),
            i <= items@.len(),
            marks_of(res@) == lr0_marks(*g, dummy as int, items@.subrange(0, i as int)),
        decreases items@.len() - i,
    {
        let item = items[i];
        assert(item_valid(*g, items@[i as int]));
        let ghost pre = items@.subrange(0, i as int);
        let ghost cur = items@.subrange(0, i + 1);
        assert(cur.drop_last() == pre);
        assert(cur.last() == item);
        let ghost old_res = res@;
        if is_lr0_reduce_state(g, &item) {
            if item.rule == dummy {
                let m = Mark { rule: item.rule, las: new_row(w), accept: true };
                assert(m.las@ == Seq::new(g.nt() + 2, |k: int| false));
                res.push(m);
            } else {
                let m = Mark { rule: item.rule, las: full_row(w), accept: false };
                assert(m.las@ == Seq::new(g.nt() + 2, |k: int| true));
                res.push(m);
            }
            assert(marks_of(res@) == marks_of(old_res).push(mark_view(res@[res@.len() - 1])));
        }
        i = i + 1;
    }
    assert(items@.subrange(0, items@.len() as int) == items@);
    res
}

/// The LR(0) parse table of a grammar.
pub struct LR0Table {}

impl LR0Table {
    /// Builds the LR(0) parse table of `ruleset`: adds the start rule
    /// `__top_dummy ::= <top>`, builds the LR(0) automaton, and marks in each
    /// state every completed item of its kernel as a reduction on all columns
    /// (an item completed only in the closure, of an empty rule, is not
    /// marked), and the
    /// completed start item as acceptance at the end of the input. Fails with
    /// a conflict when two actions fall into one cell.
    pub fn init(ruleset: &RuleSet) -> (res: Result<LRTable, DiagnosticError>)
        requires
            ruleset.wf(),
            ruleset.rules@.len() + 1 < usize::MAX,
            ruleset.num_nonterms + 2 < usize::MAX,
        ensures
            exists|aug: RuleSet, ks: Seq<Seq<LR0Item>>, items: Seq<Seq<LR0Item>>, nexts: Seq<Seq<(crate::grammar::RuleElem, usize)>>, edges: Seq<(usize, usize, crate::grammar::RuleElem)>|
                #![trigger lr0_automaton(aug, ks, items, nexts, edges)]
                {
                    &&& is_augmentation(*ruleset, aug)
                    &&& lr0_automaton(aug, ks, items, nexts, edges)
                    &&& (res is Ok <==> table_conflict_free(edges, lr0_table_marks(aug, ruleset.rules@.len() as int, ks), aug.nt()))
                    &&& (res matches Ok(t) ==> table_matches(t, aug, edges, lr0_table_marks(aug, ruleset.rules@.len() as int, ks)))
                },
            res matches Err(e) ==> is_conflict(e),
    {
        let (aug, dummy) = ruleset.augmented();
        proof {
            assert(aug.rules@[dummy as int].lhs == aug.top);
            assert(has_top_rule(aug));
        }
        let dfa = LR0DFA::from(&aug);
        let ghost ks = dfa.kernels();
        let ghost items = dfa.item_sets();
        let ghost nexts = dfa.nexts();
        proof {
            lemma_lr0_edges_valid(aug, ks, items, nexts, dfa.edges@);
        }
        let n = dfa.len();
        let mut marks: Vec<Vec<Mark>> = Vec::new();
        let mut s: usize = 0;
        while s < n
            invariant
                aug.wf(),
                n == dfa.nodes@.len(),
                dfa.is_lr0_automaton(aug),
                ks == dfa.kernels(),
                s <= n,
                marks@.len() == s,
                forall|q: int| 0 <= q < s ==> marks_of((#[trigger] marks@[q])@) == lr0_marks(aug, dummy as int, ks[q]),
            decreases n - s,
        {
            assert(all_valid(aug, ks[s as int]));
            assert(ks[s as int] == dfa.nodes@[s as int].kernel@);
            let m = lr0_state_marks(&aug, dummy, &dfa.nodes[s].kernel);
            marks.push(m);
            s = s + 1;
        }
        let ghost all = lr0_table_marks(aug, dummy as int, ks);
        proof {
            assert forall|q: int| 0 <= q < marks@.len() implies marks_valid(marks_of((#[trigger] marks@[q])@), aug.nt(), aug.rules@.len()) by {
                lemma_lr0_marks_valid(aug, dummy as int, ks[q]);
            }
            assert(Seq::new(marks@.len(), |q: int| marks_of(marks@[q]@)) == all);
        }
        let res = build_table(&aug, &dfa.edges, &marks);
        proof {
            assert(lr0_automaton(aug, ks, items, nexts, dfa.edges@));
        }
        res
    }
}

/// The LR(0) parser: the LR(0) table of a grammar and the LR driver.
pub struct LR0 {
    pub table: LRTable,
}

impl LR0 {
    /// The parser of `ruleset`; fails where its LR(0) table has a conflict.
    pub fn init(ruleset: &RuleSet) -> (res: Result<LR0, DiagnosticError>)
        requires
            ruleset.wf(),
            ruleset.rules@.len() + 1 < usize::MAX,
            ruleset.num_nonterms + 2 < usize::MAX,
        ensures
            exists|aug: RuleSet, ks: Seq<Seq<LR0Item>>, items: Seq<Seq<LR0Item>>, nexts: Seq<Seq<(crate::grammar::RuleElem, usize)>>, edges: Seq<(usize, usize, crate::grammar::RuleElem)>|
                #![trigger lr0_automaton(aug, ks, items, nexts, edges)]
                {
                    &&& is_augmentation(*ruleset, aug)
                    &&& lr0_automaton(aug, ks, items, nexts, edges)
                    &&& (res is Ok <==> table_conflict_free(edges, lr0_table_marks(aug, ruleset.rules@.len() as int, ks), aug.nt()))
                    &&& (res matches Ok(p) ==> table_matches(p.table, aug, edges, lr0_table_marks(aug, ruleset.rules@.len() as int, ks)))
                },
            res matches Err(e) ==> is_conflict(e),
    {
        match LR0Table::init(ruleset) {
            Ok(table) => Ok(LR0 { table }),
            Err(e) => Err(e),
        }
    }

    /// Parses `tokens`, reporting the events of the LR driver.
    pub fn run<'input>(&self, tokens: &Vec<Token<'input>>) -> (events: Vec<ParseEvent<'input>>)
        requires
            self.table.wf(),
            forall|i: int| 0 <= i < tokens@.len() ==> (#[trigger] tokens@[i]).kind < self.table.num_terms,
        ensures
            exists|fuel: nat, evs: Seq<(EventKind, nat)>|
                parse_run(self.table, tokens@, fuel) == Some(evs) && events_match(events@, evs, tokens@),
    {
        parse(&self.table, tokens)
    }
}

/// Every completed item of a state, but the start item, has a mark that
/// reduces by its rule on every column.
proof fn lemma_lr0_marks_item(g: RuleSet, dummy: int, items: Seq<LR0Item>, i: int)
    requires
        0 <= i < items.len(),
        next_elem(g, items[i]) is None,
        items[i].rule != dummy,
    ensures
        exists|m: int| 0 <= m < lr0_marks(g, dummy, items).len()
            && (#[trigger] lr0_marks(g, dummy, items)[m]).0 == items[i].rule
            && forall|k: int| 0 <= k < g.nt() + 2 ==> lr0_marks(g, dummy, items)[m].1[k],
    decreases items.len(),
{
    let rest = lr0_marks(g, dummy, items.drop_last());
    let all = lr0_marks(g, dummy, items);
    if i == items.len() - 1 {
        assert(all[rest.len() as int] == (items[i].rule, Seq::new(g.nt() + 2, |k: int| true), false));
    } else {
        assert(items.drop_last()[i] == items[i]);
        lemma_lr0_marks_item(g, dummy, items.drop_last(), i);
        let m = choose|m: int| 0 <= m < rest.len() && (#[trigger] rest[m]).0 == items[i].rule
            && forall|k: int| 0 <= k < g.nt() + 2 ==> rest[m].1[k];
        assert(all[m] == rest[m]);
    }
}

/// In an LR(0) table built without conflict, every completed kernel item of
/// a state (but the start item) reduces by its rule on every token: no
/// completed item is passed over.
pub proof fn lemma_lr0_table_reduces(
    t: LRTable,
    aug: RuleSet,
    dummy: int,
    ks: Seq<Seq<LR0Item>>,
    edges: Seq<(usize, usize, crate::grammar::RuleElem)>,
    s: int,
    i: int,
    k: usize,
)
    requires
        table_matches(t, aug, edges, lr0_table_marks(aug, dummy, ks)),
        0 <= s < ks.len(),
        0 <= i < ks[s].len(),
        next_elem(aug, ks[s][i]) is None,
        ks[s][i].rule != dummy,
        k < aug.nt(),
    ensures
        t.action(s, Some(k)) == LRAction::Reduce(ks[s][i].rule),
{
    let marks = lr0_table_marks(aug, dummy, ks)[s];
    lemma_lr0_marks_item(aug, dummy, ks[s], i);
    let m = choose|m: int| 0 <= m < marks.len() && (#[trigger] marks[m]).0 == ks[s][i].rule
        && forall|kk: int| 0 <= kk < aug.nt() + 2 ==> marks[m].1[kk];
    assert(valid_tok(Some(k), aug.nt()));
    assert(las_has(marks[m].1, Some(k), aug.nt()));
    lemma_cell_after_reduces(crate::marks::base_cell(edges, s, Some(k)), marks, k, aug.nt(), m);
}

/// An LR(0) table built without conflict has no state with two completed
/// kernel items of different rules (but the start item), where there is a
/// token column.
pub proof fn lemma_lr0_table_no_reduce_clash(
    t: LRTable,
    aug: RuleSet,
    dummy: int,
    ks: Seq<Seq<LR0Item>>,
    edges: Seq<(usize, usize, crate::grammar::RuleElem)>,
    s: int,
    i1: int,
    i2: int,
)
    requires
        table_matches(t, aug, edges, lr0_table_marks(aug, dummy, ks)),
        aug.nt() > 0,
        0 <= s < ks.len(),
        0 <= i1 < ks[s].len(),
        0 <= i2 < ks[s].len(),
        next_elem(aug, ks[s][i1]) is None,
        next_elem(aug, ks[s][i2]) is None,
        ks[s][i1].rule != dummy,
        ks[s][i2].rule != dummy,
    ensures
        ks[s][i1].rule == ks[s][i2].rule,
{
    lemma_lr0_table_reduces(t, aug, dummy, ks, edges, s, i1, 0);
    lemma_lr0_table_reduces(t, aug, dummy, ks, edges, s, i2, 0);
}

/// An LR(0) table built without conflict has no state with a completed
/// kernel item (but the start item) beside a transition over a token.
pub proof fn lemma_lr0_table_no_shift_clash(
    t: LRTable,
    aug: RuleSet,
    dummy: int,
    ks: Seq<Seq<LR0Item>>,
    edges: Seq<(usize, usize, crate::grammar::RuleElem)>,
    s: int,
    i: int,
    e: int,
    k: usize,
)
    requires
        table_matches(t, aug, edges, lr0_table_marks(aug, dummy, ks)),
        0 <= s < ks.len(),
        0 <= i < ks[s].len(),
        next_elem(aug, ks[s][i]) is None,
        ks[s][i].rule != dummy,
        0 <= e < edges.len(),
        edges[e].0 == s,
        k < aug.nt(),
    ensures
        edges[e].2 != crate::grammar::RuleElem::Term(k),
{
    if edges[e].2 == crate::grammar::RuleElem::Term(k) {
        let x = crate::grammar::RuleElem::Term(k);
        crate::table::lemma_last_target(edges, s, x);
        let j = crate::table::last_target(edges, s, x)->0;
        let marks = lr0_table_marks(aug, dummy, ks)[s];
        assert(valid_tok(Some(k), aug.nt()));
        assert(crate::marks::base_cell(edges, s, Some(k)) == LRAction::Shift(j));
        lemma_lr0_table_reduces(t, aug, dummy, ks, edges, s, i, k);
        lemma_cell_after_shift_kept(j, marks, k, aug.nt());
    }
}

/// A completed start item of a state has a mark that accepts.
proof fn lemma_lr0_marks_accept(g: RuleSet, dummy: int, items: Seq<LR0Item>, i: int)
    requires
        0 <= i < items.len(),
        next_elem(g, items[i]) is None,
        items[i].rule == dummy,
    ensures
        exists|m: int| 0 <= m < lr0_marks(g, dummy, items).len() && (#[trigger] lr0_marks(g, dummy, items)[m]).2,
    decreases items.len(),
{
    let rest = lr0_marks(g, dummy, items.drop_last());
    let all = lr0_marks(g, dummy, items);
    if i == items.len() - 1 {
        assert(all[rest.len() as int].2);
    } else {
        assert(items.drop_last()[i] == items[i]);
        lemma_lr0_marks_accept(g, dummy, items.drop_last(), i);
        let m = choose|m: int| 0 <= m < rest.len() && (#[trigger] rest[m]).2;
        assert(all[m] == rest[m]);
    }
}

/// In an LR(0) table built without conflict, a state with the completed
/// start item accepts at the end of the input.
pub proof fn lemma_lr0_table_accepts(
    t: LRTable,
    aug: RuleSet,
    dummy: int,
    ks: Seq<Seq<LR0Item>>,
    edges: Seq<(usize, usize, crate::grammar::RuleElem)>,
    s: int,
    i: int,
)
    requires
        table_matches(t, aug, edges, lr0_table_marks(aug, dummy, ks)),
        0 <= s < ks.len(),
        0 <= i < ks[s].len(),
        next_elem(aug, ks[s][i]) is None,
        ks[s][i].rule == dummy,
    ensures
        t.action(s, None) == LRAction::Accept,
{
    let marks = lr0_table_marks(aug, dummy, ks)[s];
    lemma_lr0_marks_accept(aug, dummy, ks[s], i);
    let m = choose|m: int| 0 <= m < marks.len() && (#[trigger] marks[m]).2;
    assert(valid_tok(None, aug.nt()));
    lemma_cell_after_accepts(crate::marks::base_cell(edges, s, None), marks, aug.nt(), m);
}

} // verus!
