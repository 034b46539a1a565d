//! The LR(1) parse table and the LR(1) parser.
use vstd::prelude::*;
use crate::error::is_conflict;
use crate::automaton::Automaton;
use crate::grammar::{RuleSet, RuleElem, is_augmentation};
use crate::lr1::{LR1Item, next_elem1, all_valid1, item1_valid};
use crate::lr1_dfa::{LR1DFA, lr1_automaton, lemma_lr1_edges_valid};
use crate::lr0_dfa::has_top_rule;
use crate::first::{FirstSet, elem_index, in_universe};
use crate::marks::{Mark, marks_of, mark_view, marks_valid, build_table, table_conflict_free, table_matches, las_has, lemma_cell_after_reduces, lemma_cell_after_source, lemma_cell_after_accepts};
use crate::table::{LRAction, valid_tok};
use crate::bitset::new_row;
use crate::table::LRTable;
use crate::token::Token;
use crate::driver::{ParseEvent, EventKind};
use crate::parser::{parse, parse_run, events_match};
use crate::error::DiagnosticError;

verus! {

/// The row that holds only the lookahead `la`.
pub open spec fn la_only(nt: nat, la: RuleElem) -> Seq<bool> {
    Seq::new(nt + 2, |k: int| k == elem_index(la, nt))
}

/// The marks of an LR(1) state with the items `items` (in order): each
/// completed item `[A -> α ., a]` reduces by its rule on its lookahead `a`;
/// the completed start item (rule `dummy`) then also accepts at the end of
/// the input.
pub open spec fn lr1_marks(g: RuleSet, dummy: int, items: Seq<LR1Item>) -> Seq<(usize, Seq<bool>, bool)>
    decreases items.len(),
{
    if items.len() == 0 {
        seq![]
    } else {
        let rest = lr1_marks(g, dummy, items.drop_last());
        let it = items.last();
        if next_elem1(g, it) is None {
            rest.push((it.rule, la_only(g.nt(), it.la_token), it.rule == dummy))
        } else {
            rest
        }
    }
}

/// The marks of all states.
pub open spec fn lr1_table_marks(g: RuleSet, dummy: int, items: Seq<Seq<LR1Item>>) -> Seq<Seq<(usize, Seq<bool>, bool)>> {
    Seq::new(items.len(), |s: int| lr1_marks(g, dummy, items[s]))
}

/// The item is complete: its dot stands at the end of the rule.
pub fn is_lr1_reduce_state(g: &RuleSet, item: &LR1Item) -> (res: bool)
    requires
        item1_valid(*g, *item),
    ensures
        res == (next_elem1(*g, *item) is None),
{
    item.check_next_elem(g).is_none()
}

proof fn lemma_lr1_marks_valid(g: RuleSet, dummy: int, items: Seq<LR1Item>)
    requires
        all_valid1(g, items),
    ensures
        marks_valid(lr1_marks(g, dummy, items), g.nt(), g.rules@.len()),
    decreases items.len(),
{
    if items.len() > 0 {
        assert(all_valid1(g, items.drop_last())) by {
            assert forall|j: int| 0 <= j < items.drop_last().len() implies item1_valid(g, #[trigger] items.drop_last()[j]) by {
                assert(items.drop_last()[j] == items[j]);
            }
        }
        lemma_lr1_marks_valid(g, dummy, items.drop_last());
        assert(item1_valid(g, items[items.len() - 1]));
    }
}

/// The row that holds only the lookahead `la`.
fn la_row(nt: usize, la: RuleElem) -> (res: Vec<bool>)
    requires
        nt + 2 < usize::MAX,
        in_universe(la, nt as nat),
    ensures
        res@ == la_only(nt as nat, la),
{
    let mut row = new_row(nt + 2);
    let k: usize = match la {
        RuleElem::Term(t) => t,
        RuleElem::Epsilon => nt,
        _ => nt + 1,
    };
    row.set(k, true);
    assert(row@ == la_only(nt as nat, la));
    row
}

/// The marks of one state.
fn lr1_state_marks(g: &RuleSet, dummy: usize, items: &Vec<LR1Item>) -> (res: Vec<Mark>)
    requires
        g.wf(),
        all_valid1(*g, items@),
    ensures
        marks_of(res@) == lr1_marks(*g, dummy as int, items@),
{
    let mut res: Vec<Mark> = Vec::new();
    let mut i: usize = 0;
    while i < items.len()
        invariant
            g.wf(),
            all_valid1(*g, items@),
            i <= items@.len(),
            marks_of(res@) == lr1_marks(*g, dummy as int, items@.subrange(0, i as int)),
        decreases items@.len() - i,
    {
        let item = items[i];
        assert(item1_valid(*g, items@[i as int]));
        let ghost pre = items@.subrange(0, i as int);
        let ghost cur = items@.subrange(0, i + 1);
        assert(cur.drop_last() == pre);
        assert(cur.last() == item);
        let ghost old_res = res@;
        if is_lr1_reduce_state(g, &item) {
            let m = Mark { rule: item.rule, las: la_row(g.num_terms, item.la_token), accept: item.rule == dummy };
            res.push(m);
            assert(marks_of(res@) == marks_of(old_res).push(mark_view(res@[res@.len() - 1])));
        }
        i = i + 1;
    }
    assert(items@.subrange(0, items@.len() as int) == items@);
    res
}

/// The LR(1) parse table of a grammar.
pub struct LR1Table {}

impl LR1Table {
    /// Builds the LR(1) parse table of `ruleset`: adds the start rule
    /// `__top_dummy ::= <top>`, builds the FIRST sets and the LR(1)
    /// automaton, and marks in each state every completed kernel item
    /// `[A -> α ., a]` as a reduction on the column of `a`, and the completed
    /// start item also as acceptance at the end of the input. Fails with a
    /// conflict when two actions fall into one cell.
    pub fn try_from(ruleset: &RuleSet) -> (res: Result<LRTable, DiagnosticError>)
        requires
            ruleset.wf(),
            ruleset.rules@.len() + 1 < usize::MAX,
            ruleset.num_nonterms + 2 < usize::MAX,
        ensures
            exists|aug: RuleSet, ks: Seq<Seq<LR1Item>>, items: Seq<Seq<LR1Item>>, nexts: Seq<Seq<(RuleElem, usize)>>, edges: Seq<(usize, usize, RuleElem)>|
                #![trigger lr1_automaton(aug, ks, items, nexts, edges)]
                {
                    &&& is_augmentation(*ruleset, aug)
                    &&& lr1_automaton(aug, ks, items, nexts, edges)
                    &&& (res is Ok <==> table_conflict_free(edges, lr1_table_marks(aug, ruleset.rules@.len() as int, ks), aug.nt()))
                    &&& (res matches Ok(t) ==> table_matches(t, aug, edges, lr1_table_marks(aug, ruleset.rules@.len() as int, ks)))
                },
            res matches Err(e) ==> is_conflict(e),
    {
        let (aug, dummy) = ruleset.augmented();
        proof {
            assert(aug.rules@[dummy as int].lhs == aug.top);
            assert(has_top_rule(aug));
        }
        let first_set = FirstSet::from(&aug);
        let dfa = LR1DFA::from(&aug, &first_set);
        let ghost ks = dfa.kernels();
        let ghost items = dfa.item_sets();
        let ghost nexts = dfa.nexts();
        proof {
            lemma_lr1_edges_valid(aug, ks, items, nexts, dfa.edges@);
        }
        let n = dfa.len();
        let mut marks: Vec<Vec<Mark>> = Vec::new();
        let mut s: usize = 0;
        while s < n
            invariant
                aug.wf(),
                n == dfa.nodes@.len(),
                dfa.is_lr1_automaton(aug, first_set),
                ks == dfa.kernels(),
                s <= n,
                marks@.len() == s,
                forall|q: int| 0 <= q < s ==> marks_of((#[trigger] marks@[q])@) == lr1_marks(aug, dummy as int, ks[q]),
            decreases n - s,
        {
            assert(all_valid1(aug, ks[s as int]));
            assert(ks[s as int] == dfa.nodes@[s as int].kernel@);
            let m = lr1_state_marks(&aug, dummy, &dfa.nodes[s].kernel);
            marks.push(m);
            s = s + 1;
        }
        let ghost all = lr1_table_marks(aug, dummy as int, ks);
        proof {
            assert forall|q: int| 0 <= q < marks@.len() implies marks_valid(marks_of((#[trigger] marks@[q])@), aug.nt(), aug.rules@.len()) by {
                lemma_lr1_marks_valid(aug, dummy as int, ks[q]);
            }
            assert(Seq::new(marks@.len(), |q: int| marks_of(marks@[q]@)) == all);
        }
        let res = build_table(&aug, &dfa.edges, &marks);
        proof {
            assert(lr1_automaton(aug, ks, items, nexts, dfa.edges@));
        }
        res
    }
}

/// The LR(1) parser: the LR(1) table of a grammar and the LR driver.
pub struct LR1 {
    pub table: LRTable,
}

impl LR1 {
    /// The parser of `ruleset`; fails where its LR(1) table has a conflict.
    pub fn try_from(ruleset: &RuleSet) -> (res: Result<LR1, DiagnosticError>)
        requires
            ruleset.wf(),
            ruleset.rules@.len() + 1 < usize::MAX,
            ruleset.num_nonterms + 2 < usize::MAX,
        ensures
            exists|aug: RuleSet, ks: Seq<Seq<LR1Item>>, items: Seq<Seq<LR1Item>>, nexts: Seq<Seq<(RuleElem, usize)>>, edges: Seq<(usize, usize, RuleElem)>|
                #![trigger lr1_automaton(aug, ks, items, nexts, edges)]
                {
                    &&& is_augmentation(*ruleset, aug)
                    &&& lr1_automaton(aug, ks, items, nexts, edges)
                    &&& (res is Ok <==> table_conflict_free(edges, lr1_table_marks(aug, ruleset.rules@.len() as int, ks), aug.nt()))
                    &&& (res matches Ok(p) ==> table_matches(p.table, aug, edges, lr1_table_marks(aug, ruleset.rules@.len() as int, ks)))
                },
            res matches Err(e) ==> is_conflict(e),
    {
        match LR1Table::try_from(ruleset) {
            Ok(table) => Ok(LR1 { table }),
            Err(e) => Err(e),
        }
    }

    /// Parses `tokens`, reporting the events of the LR driver.
    pub fn run<'input>(&self, tokens: &Vec<Token<'input>>) -> (events: Vec<ParseEvent<'input>>)
        requires
            self.table.wf(),
            forall|i: int| 0 <= i < tokens@.len() ==> (#[trigger] tokens@[i]).kind < self.table.num_terms,
        ensures
            exists|fuel: nat, evs: Seq<(EventKind, nat)>|
                parse_run(self.table, tokens@, fuel) == Some(evs) && events_match(events@, evs, tokens@),
    {
        parse(&self.table, tokens)
    }
}

/// Each completed item of a state has a mark by its rule on the row of its
/// lookahead.
proof fn lemma_lr1_marks_items(g: RuleSet, dummy: int, items: Seq<LR1Item>)
    ensures
        forall|i: int| 0 <= i < items.len() && next_elem1(g, #[trigger] items[i]) is None ==> exists|m: int|
            0 <= m < lr1_marks(g, dummy, items).len() && lr1_marks(g, dummy, items)[m].0 == items[i].rule
                && lr1_marks(g, dummy, items)[m].1 == la_only(g.nt(), items[i].la_token),
    decreases items.len(),
{
    if items.len() > 0 {
        let p = items.drop_last();
        lemma_lr1_marks_items(g, dummy, p);
        let rest = lr1_marks(g, dummy, p);
        let all = lr1_marks(g, dummy, items);
        assert forall|i: int| 0 <= i < items.len() && next_elem1(g, #[trigger] items[i]) is None implies exists|m: int|
            0 <= m < all.len() && all[m].0 == items[i].rule && all[m].1 == la_only(g.nt(), items[i].la_token) by {
            if i == items.len() - 1 {
                assert(all[rest.len() as int].0 == items[i].rule);
            } else {
                assert(p[i] == items[i]);
                let m = choose|m: int| 0 <= m < rest.len() && rest[m].0 == p[i].rule && rest[m].1 == la_only(g.nt(), p[i].la_token);
                assert(all[m] == rest[m]);
            }
        }
    }
}

/// Each mark of a state comes from a completed item of that state, by its
/// rule on the row of its lookahead; the item's index is returned.
proof fn lemma_lr1_mark_source(g: RuleSet, dummy: int, items: Seq<LR1Item>, m: int) -> (i: int)
    requires
        0 <= m < lr1_marks(g, dummy, items).len(),
    ensures
        0 <= i < items.len(),
        next_elem1(g, items[i]) is None,
        lr1_marks(g, dummy, items)[m].0 == items[i].rule,
        lr1_marks(g, dummy, items)[m].1 == la_only(g.nt(), items[i].la_token),
    decreases items.len(),
{
    let p = items.drop_last();
    let rest = lr1_marks(g, dummy, p);
    let all = lr1_marks(g, dummy, items);
    if next_elem1(g, items.last()) is None {
        assert(all == rest.push((items.last().rule, la_only(g.nt(), items.last().la_token), items.last().rule == dummy)));
        if m < rest.len() {
            let j = lemma_lr1_mark_source(g, dummy, p, m);
            assert(p[j] == items[j]);
            j
        } else {
            items.len() - 1
        }
    } else {
        assert(all == rest);
        let j = lemma_lr1_mark_source(g, dummy, p, m);
        assert(p[j] == items[j]);
        j
    }
}

/// The symbol of a column: a token, or the end of the input.
pub open spec fn column_elem(tok: Option<usize>) -> RuleElem {
    match tok {
        Some(k) => RuleElem::Term(k),
        None => RuleElem::EOF,
    }
}

/// In an LR(1) table built without conflict, every completed kernel item
/// `[A -> α ., a]` of a state with a token `a` reduces by its rule on `a`.
pub proof fn lemma_lr1_table_reduces(
    t: LRTable,
    aug: RuleSet,
    dummy: int,
    ks: Seq<Seq<LR1Item>>,
    edges: Seq<(usize, usize, RuleElem)>,
    s: int,
    i: int,
    k: usize,
)
    requires
        table_matches(t, aug, edges, lr1_table_marks(aug, dummy, ks)),
        0 <= s < ks.len(),
        0 <= i < ks[s].len(),
        next_elem1(aug, ks[s][i]) is None,
        ks[s][i].la_token == RuleElem::Term(k),
        k < aug.nt(),
    ensures
        t.action(s, Some(k)) == LRAction::Reduce(ks[s][i].rule),
{
    let marks = lr1_table_marks(aug, dummy, ks)[s];
    lemma_lr1_marks_items(aug, dummy, ks[s]);
    assert(next_elem1(aug, ks[s][i]) is None);
    let m = choose|m: int| 0 <= m < marks.len() && marks[m].0 == ks[s][i].rule && marks[m].1 == la_only(aug.nt(), ks[s][i].la_token);
    assert(valid_tok(Some(k), aug.nt()));
    assert(las_has(marks[m].1, Some(k), aug.nt()));
    lemma_cell_after_reduces(crate::marks::base_cell(edges, s, Some(k)), marks, k, aug.nt(), m);
}

/// In an LR(1) table, a reduction in the cell of a token (or of the end of
/// the input) comes from a completed kernel item of that state by that rule
/// whose lookahead is exactly that token (or `EOF`): an item reduces on its
/// own lookahead and on no other column.
pub proof fn lemma_lr1_table_reduce_source(
    t: LRTable,
    aug: RuleSet,
    dummy: int,
    ks: Seq<Seq<LR1Item>>,
    edges: Seq<(usize, usize, RuleElem)>,
    s: int,
    tok: Option<usize>,
    r: usize,
)
    requires
        table_matches(t, aug, edges, lr1_table_marks(aug, dummy, ks)),
        0 <= s < ks.len(),
        all_valid1(aug, ks[s]),
        valid_tok(tok, aug.nt()),
        t.action(s, tok) == LRAction::Reduce(r),
    ensures
        exists|i: int| 0 <= i < ks[s].len() && next_elem1(aug, #[trigger] ks[s][i]) is None && ks[s][i].rule == r
            && ks[s][i].la_token == column_elem(tok),
{
    let marks = lr1_table_marks(aug, dummy, ks)[s];
    let nt = aug.nt();
    assert(crate::marks::base_cell(edges, s, tok) != LRAction::Reduce(r));
    lemma_cell_after_source(crate::marks::base_cell(edges, s, tok), marks, tok, nt, r);
    let m = choose|m: int| 0 <= m < marks.len() && (#[trigger] marks[m]).0 == r && las_has(marks[m].1, tok, nt);
    let i = lemma_lr1_mark_source(aug, dummy, ks[s], m);
    assert(item1_valid(aug, ks[s][i]));
    let la = ks[s][i].la_token;
    match tok {
        Some(k) => {
            assert(la_only(nt, la)[k as int]);
            assert(elem_index(la, nt) == k);
        },
        None => {
            assert(la_only(nt, la)[nt + 1int]);
            assert(elem_index(la, nt) == nt + 1);
        },
    }
    assert(next_elem1(aug, ks[s][i]) is None);
}

/// A completed start item of a state has a mark that accepts.
proof fn lemma_lr1_marks_accept(g: RuleSet, dummy: int, items: Seq<LR1Item>, i: int)
    requires
        0 <= i < items.len(),
        next_elem1(g, items[i]) is None,
        items[i].rule == dummy,
    ensures
        exists|m: int| 0 <= m < lr1_marks(g, dummy, items).len() && (#[trigger] lr1_marks(g, dummy, items)[m]).2,
    decreases items.len(),
{
    let rest = lr1_marks(g, dummy, items.drop_last());
    let all = lr1_marks(g, dummy, items);
    if i == items.len() - 1 {
        assert(all[rest.len() as int].2);
    } else {
        assert(items.drop_last()[i] == items[i]);
        lemma_lr1_marks_accept(g, dummy, items.drop_last(), i);
        let m = choose|m: int| 0 <= m < rest.len() && (#[trigger] rest[m]).2;
        assert(all[m] == rest[m]);
    }
}

/// In an LR(1) table built without conflict, a state with a completed
/// start item accepts at the end of the input.
pub proof fn lemma_lr1_table_accepts(
    t: LRTable,
    aug: RuleSet,
    dummy: int,
    ks: Seq<Seq<LR1Item>>,
    edges: Seq<(usize, usize, RuleElem)>,
    s: int,
    i: int,
)
    requires
        table_matches(t, aug, edges, lr1_table_marks(aug, dummy, ks)),
        0 <= s < ks.len(),
        0 <= i < ks[s].len(),
        next_elem1(aug, ks[s][i]) is None,
        ks[s][i].rule == dummy,
    ensures
        t.action(s, None) == LRAction::Accept,
{
    let marks = lr1_table_marks(aug, dummy, ks)[s];
    lemma_lr1_marks_accept(aug, dummy, ks[s], i);
    let m = choose|m: int| 0 <= m < marks.len() && (#[trigger] marks[m]).2;
    assert(valid_tok(None, aug.nt()));
    lemma_cell_after_accepts(crate::marks::base_cell(edges, s, None), marks, aug.nt(), m);
}

} // verus!
