//! The LALR(1) automaton, made by merging the states of the LR(1)
//! automaton, and the LALR(1) parse table and parser.
//!
//! Two LR(1) states are merged when their kernels have the same number of
//! items and every item of the first has its core (rule and dot) in the
//! second. States are taken in order; each joins the first earlier group
//! whose first state it matches, or opens a new group. The groups are
//! numbered in the order in which they are opened. An LALR(1) state holds,
//! for each core of the items of its LR(1) states (in order of first
//! appearance), the lookaheads of those items (in order of first
//! appearance).
use vstd::prelude::*;
use crate::error::is_conflict;
use crate::grammar::{RuleSet, RuleElem, is_augmentation};
use crate::lr0::{LR0Item, next_elem, item_valid};
use crate::lr1::{LR1Item, core_of, all_valid1, item1_valid};
use crate::lr1_dfa::{LR1DFA, lr1_automaton, lemma_lr1_edges_valid};
use crate::lr0_dfa::{has_top_rule, filter_by};
use crate::first::{FirstSet, elem_index, in_universe};
use crate::marks::{Mark, marks_of, mark_view, marks_valid, build_table, table_conflict_free, table_matches, las_has, lemma_cell_after_reduces, lemma_cell_after_source, lemma_cell_after_accepts};
use crate::lr1_table::column_elem;
use crate::table::{LRAction, valid_tok};
use crate::bitset::new_row;
use crate::table::{LRTable, edges_valid};
use crate::token::Token;
use crate::driver::{ParseEvent, EventKind};
use crate::parser::{parse, parse_run, events_match};
use crate::error::DiagnosticError;

verus! {

/// An LALR(1) item: a rule, the position of the dot, and the lookaheads.
pub struct LALR1Item {
    pub rule: usize,
    pub dot_pos: usize,
    pub la_tokens: Vec<RuleElem>,
}

/// The items of an LALR(1) state.
pub struct LALR1ItemSet {
    pub items: Vec<LALR1Item>,
}

/// A state of the LALR(1) automaton.
pub struct LALR1DFANode {
    pub id: usize,
    pub itemset: LALR1ItemSet,
}

/// The LALR(1) automaton: states by id, and the transitions
/// `(from, to, symbol)`.
pub struct LALR1DFA {
    pub nodes: Vec<LALR1DFANode>,
    pub edges: Vec<(usize, usize, RuleElem)>,
}

impl LALR1Item {
    pub fn new(rule: usize, dot_pos: usize, la_tokens: Vec<RuleElem>) -> (res: LALR1Item)
        ensures
            res.rule == rule,
            res.dot_pos == dot_pos,
            res.la_tokens@ == la_tokens@,
    {
        LALR1Item { rule, dot_pos, la_tokens }
    }

    /// The symbol after the dot, if any.
    pub fn check_next_elem(&self, ruleset: &RuleSet) -> (res: Option<RuleElem>)
        requires
            item_valid(*ruleset, LR0Item { rule: self.rule, dot_pos: self.dot_pos }),
        ensures
            res == next_elem(*ruleset, LR0Item { rule: self.rule, dot_pos: self.dot_pos }),
    {
        LR0Item { rule: self.rule, dot_pos: self.dot_pos }.check_next_elem(ruleset)
    }
}

impl LALR1ItemSet {
    pub fn new(items: Vec<LALR1Item>) -> (res: LALR1ItemSet)
        ensures
            res.items@ == items@,
    {
        LALR1ItemSet { items }
    }
}

pub open spec fn rule_lass_of_items(v: Seq<LALR1Item>) -> Seq<(usize, Seq<RuleElem>)> {
    Seq::new(v.len(), |i: int| (v[i].rule, v[i].la_tokens@))
}

pub open spec fn pairs_view(v: Seq<(usize, Vec<RuleElem>)>) -> Seq<(usize, Seq<RuleElem>)> {
    Seq::new(v.len(), |i: int| (v[i].0, v[i].1@))
}

impl LALR1DFANode {
    /// The rules and lookaheads of the items of this state for which `cond`
    /// holds, in the order of the items.
    pub fn find_all_by<F: Fn(&LALR1Item) -> bool>(&self, cond: F) -> (res: Vec<(usize, Vec<RuleElem>)>)
        requires
            forall|it: LALR1Item| #[trigger] cond.requires((&it,)),
        ensures
            exists|keep: Seq<bool>|
                #![trigger filter_by(rule_lass_of_items(self.itemset.items@), keep)]
                keep.len() == self.itemset.items@.len() && (forall|i: int|
                    0 <= i < keep.len() ==> cond.ensures((&self.itemset.items@[i],), #[trigger] keep[i]))
                    && pairs_view(res@) == filter_by(rule_lass_of_items(self.itemset.items@), keep),
    {
        let items = &self.itemset.items;
        let mut res: Vec<(usize, Vec<RuleElem>)> = Vec::new();
        let ghost mut keep: Seq<bool> = seq![];
        let mut i: usize = 0;
        while i < items.len()
            invariant
                forall|it: LALR1Item| #[trigger] cond.requires((&it,)),
                i <= items@.len(),
                keep.len() == i,
                forall|q: int| 0 <= q < i ==> cond.ensures((&items@[q],), #[trigger] keep[q]),
                pairs_view(res@) == filter_by(rule_lass_of_items(items@.subrange(0, i as int)), keep),
            decreases items@.len() - i,
        {
            let it = &items[i];
            let b = cond(it);
            let ghost pre = items@.subrange(0, i as int);
            let ghost cur = items@.subrange(0, i + 1);
            assert(rule_lass_of_items(cur).drop_last() == rule_lass_of_items(pre));
            assert(keep.push(b).subrange(0, i as int) == keep);
            let ghost old_res = res@;
            if b {
                res.push((it.rule, copy_elems(&it.la_tokens)));
                assert(pairs_view(res@) == pairs_view(old_res).push((it.rule, it.la_tokens@)));
            }
            proof {
                keep = keep.push(b);
            }
            i = i + 1;
        }
        assert(items@.subrange(0, items@.len() as int) == items@);
        res
    }

    /// The rule `rule` with the lookaheads of each item of this state with
    /// that rule.
    pub fn find_all(&self, rule: usize) -> (res: Vec<(usize, Vec<RuleElem>)>)
        ensures
            pairs_view(res@) == filter_by(
                rule_lass_of_items(self.itemset.items@),
                Seq::new(self.itemset.items@.len(), |i: int| self.itemset.items@[i].rule == rule),
            ),
    {
        let items = &self.itemset.items;
        let ghost keep_all = Seq::new(items@.len(), |i: int| items@[i].rule == rule);
        let mut res: Vec<(usize, Vec<RuleElem>)> = Vec::new();
        let mut i: usize = 0;
        while i < items.len()
            invariant
                i <= items@.len(),
                keep_all == Seq::new(items@.len(), |i: int| items@[i].rule == rule),
                pairs_view(res@) == filter_by(rule_lass_of_items(items@.subrange(0, i as int)), keep_all.subrange(0, i as int)),
            decreases items@.len() - i,
        {
            let ghost pre = items@.subrange(0, i as int);
            let ghost cur = items@.subrange(0, i + 1);
            assert(rule_lass_of_items(cur).drop_last() == rule_lass_of_items(pre));
            assert(keep_all.subrange(0, i + 1).subrange(0, i as int) == keep_all.subrange(0, i as int));
            let ghost old_res = res@;
            if items[i].rule == rule {
                res.push((items[i].rule, copy_elems(&items[i].la_tokens)));
                assert(pairs_view(res@) == pairs_view(old_res).push((items@[i as int].rule, items@[i as int].la_tokens@)));
            }
            i = i + 1;
        }
        assert(items@.subrange(0, items@.len() as int) == items@);
        assert(keep_all.subrange(0, items@.len() as int) == keep_all);
        res
    }
}

/// An LALR(1) item as a core and its lookaheads.
pub open spec fn lalr_view(it: LALR1Item) -> (LR0Item, Seq<RuleElem>) {
    (LR0Item { rule: it.rule, dot_pos: it.dot_pos }, it.la_tokens@)
}

pub open spec fn lalr_views(v: Seq<LALR1Item>) -> Seq<(LR0Item, Seq<RuleElem>)> {
    Seq::new(v.len(), |j: int| lalr_view(v[j]))
}

/// The merge criterion on kernels: `a` and `b` have the same number of
/// items, and the core of every item of `a` is the core of an item of `b`.
pub open spec fn key_eq(a: Seq<LR1Item>, b: Seq<LR1Item>) -> bool {
    &&& a.len() == b.len()
    &&& forall|p: int| 0 <= p < a.len() ==> has_core(b, #[trigger] core_of(a[p]))
}

/// Some item of `b` has the core `c`.
pub open spec fn has_core(b: Seq<LR1Item>, c: LR0Item) -> bool {
    exists|q: int| 0 <= q < b.len() && core_of(b[q]) == c
}

/// The position in `rs` of the first state whose kernel matches the kernel
/// of state `i`; `rs.len()` when there is none.
pub open spec fn first_match(ks: Seq<Seq<LR1Item>>, rs: Seq<usize>, i: int) -> int
    decreases rs.len(),
{
    if rs.len() == 0 {
        0
    } else if key_eq(ks[rs[0] as int], ks[i]) {
        0
    } else {
        1 + first_match(ks, rs.drop_first(), i)
    }
}

/// The first states of the groups opened by states `0..n`, in order.
pub open spec fn reps(ks: Seq<Seq<LR1Item>>, n: nat) -> Seq<usize>
    decreases n,
{
    if n == 0 {
        seq![]
    } else {
        let r = reps(ks, (n - 1) as nat);
        if first_match(ks, r, n - 1) < r.len() {
            r
        } else {
            r.push((n - 1) as usize)
        }
    }
}

/// The group of LR(1) state `i`.
pub open spec fn group_of(ks: Seq<Seq<LR1Item>>, i: int) -> int {
    first_match(ks, reps(ks, i as nat), i)
}

/// The items of the LR(1) states `0..n` of group `grp`, state after state.
pub open spec fn merged_upto(ks: Seq<Seq<LR1Item>>, items: Seq<Seq<LR1Item>>, grp: int, n: nat) -> Seq<LR1Item>
    decreases n,
{
    if n == 0 {
        seq![]
    } else {
        merged_upto(ks, items, grp, (n - 1) as nat) + if group_of(ks, n - 1) == grp {
            items[n - 1]
        } else {
            seq![]
        }
    }
}

/// The index in `r` of the entry with core `c`.
pub open spec fn core_pos(r: Seq<(LR0Item, Seq<RuleElem>)>, c: LR0Item) -> int {
    choose|j: int| 0 <= j < r.len() && r[j].0 == c
}

/// The items of `s` grouped by core: the cores in order of first
/// appearance, each with its lookaheads in order of first appearance.
pub open spec fn lalr_items(s: Seq<LR1Item>) -> Seq<(LR0Item, Seq<RuleElem>)>
    decreases s.len(),
{
    if s.len() == 0 {
        seq![]
    } else {
        let r = lalr_items(s.drop_last());
        let x = s.last();
        let c = core_of(x);
        if exists|j: int| 0 <= j < r.len() && r[j].0 == c {
            let j = core_pos(r, c);
            if r[j].1.contains(x.la_token) {
                r
            } else {
                r.update(j, (c, r[j].1.push(x.la_token)))
            }
        } else {
            r.push((c, seq![x.la_token]))
        }
    }
}

/// The row of the lookaheads `las`.
pub open spec fn las_row(nt: nat, las: Seq<RuleElem>) -> Seq<bool>
    decreases las.len(),
{
    if las.len() == 0 {
        Seq::new(nt + 2, |k: int| false)
    } else {
        las_row(nt, las.drop_last()).update(elem_index(las.last(), nt), true)
    }
}

/// The marks of an LALR(1) state with the items `li`: each completed item
/// reduces by its rule on its lookaheads; the completed start item (rule
/// `dummy`) then also accepts at the end of the input.
pub open spec fn lalr_marks(g: RuleSet, dummy: int, li: Seq<(LR0Item, Seq<RuleElem>)>) -> Seq<(usize, Seq<bool>, bool)>
    decreases li.len(),
{
    if li.len() == 0 {
        seq![]
    } else {
        let rest = lalr_marks(g, dummy, li.drop_last());
        let (c, las) = li.last();
        if next_elem(g, c) is None {
            rest.push((c.rule, las_row(g.nt(), las), c.rule == dummy))
        } else {
            rest
        }
    }
}

/// The number of LALR(1) states.
pub open spec fn num_groups(ks: Seq<Seq<LR1Item>>) -> nat {
    reps(ks, ks.len()).len()
}

/// The items of each LALR(1) state.
pub open spec fn lalr_states(ks: Seq<Seq<LR1Item>>, items: Seq<Seq<LR1Item>>) -> Seq<Seq<(LR0Item, Seq<RuleElem>)>> {
    Seq::new(num_groups(ks), |grp: int| lalr_items(merged_upto(ks, items, grp, ks.len())))
}

/// The marks of all LALR(1) states.
pub open spec fn lalr_table_marks(g: RuleSet, dummy: int, ks: Seq<Seq<LR1Item>>, items: Seq<Seq<LR1Item>>) -> Seq<Seq<(usize, Seq<bool>, bool)>> {
    Seq::new(num_groups(ks), |grp: int| lalr_marks(g, dummy, lalr_states(ks, items)[grp]))
}

/// The transitions of the LR(1) automaton, between the groups of their
/// states.
pub open spec fn lalr_edges(ks: Seq<Seq<LR1Item>>, edges: Seq<(usize, usize, RuleElem)>) -> Seq<(usize, usize, RuleElem)> {
    Seq::new(edges.len(), |e: int| (group_of(ks, edges[e].0 as int) as usize, group_of(ks, edges[e].1 as int) as usize, edges[e].2))
}

/// Whether the kernels `a` and `b` match.
fn kernels_match(a: &Vec<LR1Item>, b: &Vec<LR1Item>) -> (res: bool)
    ensures
        res == key_eq(a@, b@),
{
    if a.len() != b.len() {
        return false;
    }
    let mut p: usize = 0;
    while p < a.len()
        invariant
            a@.len() == b@.len(),
            p <= a@.len(),
            forall|pp: int| 0 <= pp < p ==> has_core(b@, #[trigger] core_of(a@[pp])),
        decreases a@.len() - p,
    {
        let mut q: usize = 0;
        let mut found = false;
        while q < b.len()
            invariant
                q <= b@.len(),
                p < a@.len(),
                !found ==> forall|qq: int| 0 <= qq < q ==> core_of(a@[p as int]) != core_of(b@[qq]),
                found ==> has_core(b@, core_of(a@[p as int])),
            decreases b@.len() - q,
        {
            if !found && a[p].rule == b[q].rule && a[p].dot_pos == b[q].dot_pos {
                found = true;
                assert(core_of(a@[p as int]) == core_of(b@[q as int]));
            }
            q = q + 1;
        }
        if !found {
            assert(!has_core(b@, core_of(a@[p as int])));
            assert(!key_eq(a@, b@));
            return false;
        }
        p = p + 1;
    }
    true
}

proof fn lemma_first_match_step(ks: Seq<Seq<LR1Item>>, rs: Seq<usize>, i: int, g: int)
    requires
        0 <= g < rs.len(),
        !key_eq(ks[rs[g] as int], ks[i]),
    ensures
        first_match(ks, rs.skip(g), i) == 1 + first_match(ks, rs.skip(g + 1), i),
{
    assert(rs.skip(g).drop_first() == rs.skip(g + 1));
}

proof fn lemma_first_match_prefix(ks: Seq<Seq<LR1Item>>, rs: Seq<usize>, i: int, g: int)
    requires
        0 <= g <= rs.len(),
        forall|h: int| 0 <= h < g ==> !key_eq(ks[rs[h] as int], ks[i]),
    ensures
        first_match(ks, rs, i) == g + first_match(ks, rs.skip(g), i),
    decreases g,
{
    if g > 0 {
        lemma_first_match_prefix(ks, rs, i, g - 1);
        lemma_first_match_step(ks, rs, i, g - 1);
    } else {
        assert(rs.skip(0) == rs);
    }
}

proof fn lemma_first_match_bound(ks: Seq<Seq<LR1Item>>, rs: Seq<usize>, i: int)
    ensures
        0 <= first_match(ks, rs, i) <= rs.len(),
        first_match(ks, rs, i) < rs.len() ==> key_eq(ks[rs[first_match(ks, rs, i)] as int], ks[i]),
    decreases rs.len(),
{
    if rs.len() > 0 && !key_eq(ks[rs[0] as int], ks[i]) {
        lemma_first_match_bound(ks, rs.drop_first(), i);
    }
}

/// The group of each LR(1) state, and the first states of the groups.
fn lalr_groups(kernels: &Vec<Vec<LR1Item>>) -> (res: (Vec<usize>, Vec<usize>))
    ensures
        res.0@.len() == kernels@.len(),
        res.1@ == reps(Seq::new(kernels@.len(), |i: int| kernels@[i]@), kernels@.len() as nat),
        forall|i: int| 0 <= i < kernels@.len() ==> #[trigger] res.0@[i] as int == group_of(Seq::new(kernels@.len(), |q: int| kernels@[q]@), i),
        forall|i: int| 0 <= i < kernels@.len() ==> #[trigger] res.0@[i] < res.1@.len(),
{
    let ghost ks = Seq::new(kernels@.len(), |i: int| kernels@[i]@);
    let mut managed: Vec<usize> = Vec::new();
    let mut group: Vec<usize> = Vec::new();
    let mut i: usize = 0;
    while i < kernels.len()
        invariant
            ks == Seq::new(kernels@.len(), |q: int| kernels@[q]@),
            i <= kernels@.len(),
            group@.len() == i,
            managed@ == reps(ks, i as nat),
            forall|q: int| 0 <= q < managed@.len() ==> #[trigger] managed@[q] < i,
            forall|q: int| 0 <= q < i ==> #[trigger] group@[q] as int == group_of(ks, q),
            forall|q: int| 0 <= q < i ==> #[trigger] group@[q] < managed@.len(),
        decreases kernels@.len() - i,
    {
        let mut g: usize = 0;
        let mut found = false;
        while g < managed.len()
            invariant
                ks == Seq::new(kernels@.len(), |q: int| kernels@[q]@),
                i < kernels@.len(),
                g <= managed@.len(),
                forall|q: int| 0 <= q < managed@.len() ==> #[trigger] managed@[q] < i,
                !found ==> forall|h: int| 0 <= h < g ==> !key_eq(ks[managed@[h] as int], ks[i as int]),
                found ==> g < managed@.len() && key_eq(ks[managed@[g as int] as int], ks[i as int])
                    && forall|h: int| 0 <= h < g ==> !key_eq(ks[managed@[h] as int], ks[i as int]),
            ensures
                g <= managed@.len(),
                found ==> g < managed@.len() && key_eq(ks[managed@[g as int] as int], ks[i as int]),
                forall|h: int| 0 <= h < g ==> !key_eq(ks[managed@[h] as int], ks[i as int]),
                !found ==> g == managed@.len(),
            decreases managed@.len() - g,
        {
            let m = managed[g];
            if kernels_match(&kernels[m], &kernels[i]) {
                found = true;
                break;
            }
            g = g + 1;
        }
        proof {
            lemma_first_match_prefix(ks, managed@, i as int, g as int);
            if found {
                assert(managed@.skip(g as int)[0] == managed@[g as int]);
                assert(first_match(ks, managed@.skip(g as int), i as int) == 0);
            } else {
                assert(managed@.skip(g as int).len() == 0);
            }
            assert(first_match(ks, managed@, i as int) == g);
        }
        let ghost old_managed = managed@;
        if !found {
            managed.push(i);
        }
        group.push(g);
        proof {
            assert(reps(ks, (i + 1) as nat) == managed@);
            assert forall|q: int| 0 <= q < i + 1 implies #[trigger] group@[q] as int == group_of(ks, q) by {
                if q == i {
                    assert(group_of(ks, q) == first_match(ks, old_managed, i as int));
                }
            }
        }
        i = i + 1;
    }
    (group, managed)
}

/// Whether `v` holds `x`.
fn elem_vec_contains(v: &Vec<RuleElem>, x: RuleElem) -> (res: bool)
    ensures
        res == v@.contains(x),
{
    let mut i: usize = 0;
    while i < v.len()
        invariant
            i <= v@.len(),
            forall|j: int| 0 <= j < i ==> v@[j] != x,
        decreases v@.len() - i,
    {
        if v[i] == x {
            assert(v@[i as int] == x);
            return true;
        }
        i = i + 1;
    }
    false
}

fn copy_elems(v: &Vec<RuleElem>) -> (res: Vec<RuleElem>)
    ensures
        res@ == v@,
{
    let mut res: Vec<RuleElem> = Vec::new();
    let mut i: usize = 0;
    while i < v.len()
        invariant
            i <= v@.len(),
            res@ == v@.subrange(0, i as int),
        decreases v@.len() - i,
    {
        res.push(v[i]);
        i = i + 1;
    }
    res
}

/// No two entries of `r` have the same core.
pub open spec fn cores_distinct(r: Seq<(LR0Item, Seq<RuleElem>)>) -> bool {
    forall|a: int, b: int| 0 <= a < r.len() && 0 <= b < r.len() && a != b ==> r[a].0 != r[b].0
}

proof fn lemma_lalr_items_distinct(s: Seq<LR1Item>)
    ensures
        cores_distinct(lalr_items(s)),
    decreases s.len(),
{
    if s.len() > 0 {
        lemma_lalr_items_distinct(s.drop_last());
    }
}

/// The items of `merged` grouped by core, as `lalr_items` says.
fn group_items(merged: &Vec<LR1Item>) -> (res: Vec<LALR1Item>)
    ensures
        lalr_views(res@) == lalr_items(merged@),
{
    let mut res: Vec<LALR1Item> = Vec::new();
    let mut i: usize = 0;
    while i < merged.len()
        invariant
            i <= merged@.len(),
            lalr_views(res@) == lalr_items(merged@.subrange(0, i as int)),
        decreases merged@.len() - i,
    {
        let x = merged[i];
        let ghost pre = merged@.subrange(0, i as int);
        let ghost cur = merged@.subrange(0, i + 1);
        assert(cur.drop_last() == pre);
        assert(cur.last() == x);
        let ghost r = lalr_items(pre);
        proof {
            lemma_lalr_items_distinct(pre);
        }
        let mut j: usize = 0;
        while j < res.len()
            invariant
                j <= res@.len(),
                lalr_views(res@) == r,
                forall|h: int| 0 <= h < j ==> r[h].0 != core_of(x),
            ensures
                j <= res@.len(),
                forall|h: int| 0 <= h < j ==> r[h].0 != core_of(x),
                j < res@.len() ==> r[j as int].0 == core_of(x),
            decreases res@.len() - j,
        {
            if res[j].rule == x.rule && res[j].dot_pos == x.dot_pos {
                assert(r[j as int] == lalr_view(res@[j as int]));
                break;
            }
            assert(r[j as int] == lalr_view(res@[j as int]));
            j = j + 1;
        }
        let ghost old_res = res@;
        if j < res.len() {
            proof {
                assert(exists|jj: int| 0 <= jj < r.len() && r[jj].0 == core_of(x));
                let cp = core_pos(r, core_of(x));
                assert(cp == j);
            }
            if !elem_vec_contains(&res[j].la_tokens, x.la_token) {
                let mut las = copy_elems(&res[j].la_tokens);
                las.push(x.la_token);
                let it = LALR1Item { rule: x.rule, dot_pos: x.dot_pos, la_tokens: las };
                res.set(j, it);
                proof {
                    assert(lalr_views(res@) == r.update(j as int, (core_of(x), r[j as int].1.push(x.la_token))));
                }
            } else {
                assert(r[j as int].1 == old_res[j as int].la_tokens@);
            }
        } else {
            let mut las: Vec<RuleElem> = Vec::new();
            las.push(x.la_token);
            res.push(LALR1Item { rule: x.rule, dot_pos: x.dot_pos, la_tokens: las });
            proof {
                assert(!(exists|jj: int| 0 <= jj < r.len() && r[jj].0 == core_of(x)));
                assert(lalr_views(res@) == r.push((core_of(x), seq![x.la_token])));
            }
        }
        i = i + 1;
    }
    assert(merged@.subrange(0, merged@.len() as int) == merged@);
    res
}

proof fn lemma_reps_grow(ks: Seq<Seq<LR1Item>>, m: nat, n: nat)
    requires
        m <= n,
    ensures
        reps(ks, m).len() <= reps(ks, n).len(),
    decreases n,
{
    if m < n {
        lemma_reps_grow(ks, m, (n - 1) as nat);
    }
}

impl LALR1DFA {
    /// Merges the states of the LR(1) automaton `lr1` whose kernels have
    /// the same cores into the LALR(1) automaton; a merged state holds the
    /// items of the merged kernels, lookaheads joined.
    pub fn from<'a, 'b>(lr1: &LR1DFA<'a, 'b>) -> (res: LALR1DFA)
        requires
            forall|e: int| 0 <= e < lr1.edges@.len() ==> (#[trigger] lr1.edges@[e]).0 < lr1.nodes@.len() && lr1.edges@[e].1 < lr1.nodes@.len(),
        ensures
            res.nodes@.len() == num_groups(lr1.kernels()),
            forall|grp: int| 0 <= grp < res.nodes@.len() ==> (#[trigger] res.nodes@[grp]).id == grp,
            forall|grp: int| 0 <= grp < res.nodes@.len() ==> lalr_views((#[trigger] res.nodes@[grp]).itemset.items@)
                == lalr_states(lr1.kernels(), lr1.kernels())[grp],
            res.edges@ == lalr_edges(lr1.kernels(), lr1.edges@),
    {
        let ghost ks = lr1.kernels();
        let ghost items = lr1.kernels();
        let n = lr1.nodes.len();
        let mut kernels: Vec<Vec<LR1Item>> = Vec::new();
        let mut i: usize = 0;
        while i < n
            invariant
                n == lr1.nodes@.len(),
                ks == lr1.kernels(),
                i <= n,
                kernels@.len() == i,
                forall|q: int| 0 <= q < i ==> (#[trigger] kernels@[q])@ == ks[q],
            decreases n - i,
        {
            kernels.push(crate::lr1::copy_items1(&lr1.nodes[i].kernel));
            i = i + 1;
        }
        assert(Seq::new(kernels@.len(), |q: int| kernels@[q]@) == ks);
        let (group, managed) = lalr_groups(&kernels);
        let ngroups = managed.len();
        let mut nodes: Vec<LALR1DFANode> = Vec::new();
        let mut grp: usize = 0;
        while grp < ngroups
            invariant
                n == lr1.nodes@.len(),
                ks == lr1.kernels(),
                items == lr1.kernels(),
                ks.len() == n,
                group@.len() == n,
                ngroups == managed@.len(),
                managed@ == reps(ks, n as nat),
                forall|q: int| 0 <= q < n ==> #[trigger] group@[q] as int == group_of(ks, q),
                grp <= ngroups,
                nodes@.len() == grp,
                forall|g2: int| 0 <= g2 < grp ==> (#[trigger] nodes@[g2]).id == g2,
                forall|g2: int| 0 <= g2 < grp ==> lalr_views((#[trigger] nodes@[g2]).itemset.items@)
                    == lalr_states(ks, items)[g2],
            decreases ngroups - grp,
        {
            let mut merged: Vec<LR1Item> = Vec::new();
            let mut q: usize = 0;
            while q < n
                invariant
                    n == lr1.nodes@.len(),
                    ks == lr1.kernels(),
                    items == lr1.kernels(),
                    group@.len() == n,
                    forall|q: int| 0 <= q < n ==> #[trigger] group@[q] as int == group_of(ks, q),
                    q <= n,
                    merged@ == merged_upto(ks, items, grp as int, q as nat),
                decreases n - q,
            {
                if group[q] == grp {
                    let mut more = crate::lr1::copy_items1(&lr1.nodes[q].kernel);
                    assert(more@ == items[q as int]);
                    merged.append(&mut more);
                } else {
                    assert(merged_upto(ks, items, grp as int, (q + 1) as nat) == merged_upto(ks, items, grp as int, q as nat));
                }
                q = q + 1;
            }
            let gi = group_items(&merged);
            nodes.push(LALR1DFANode { id: grp, itemset: LALR1ItemSet { items: gi } });
            proof {
                assert(lalr_states(ks, items)[grp as int] == lalr_items(merged_upto(ks, items, grp as int, ks.len())));
            }
            grp = grp + 1;
        }
        let mut edges: Vec<(usize, usize, RuleElem)> = Vec::new();
        let mut e: usize = 0;
        while e < lr1.edges.len()
            invariant
                ks == lr1.kernels(),
                ks.len() == n,
                n == lr1.nodes@.len(),
                group@.len() == n,
                forall|q: int| 0 <= q < n ==> #[trigger] group@[q] as int == group_of(ks, q),
                forall|e2: int| 0 <= e2 < lr1.edges@.len() ==> (#[trigger] lr1.edges@[e2]).0 < n && lr1.edges@[e2].1 < n,
                e <= lr1.edges@.len(),
                edges@ == lalr_edges(ks, lr1.edges@).subrange(0, e as int),
            decreases lr1.edges@.len() - e,
        {
            let (from, to, x) = lr1.edges[e];
            edges.push((group[from], group[to], x));
            e = e + 1;
        }
        assert(lalr_edges(ks, lr1.edges@).subrange(0, lr1.edges@.len() as int) == lalr_edges(ks, lr1.edges@));
        LALR1DFA { nodes, edges }
    }
}

proof fn lemma_group_bound(ks: Seq<Seq<LR1Item>>, i: int)
    requires
        0 <= i < ks.len(),
    ensures
        0 <= group_of(ks, i) < num_groups(ks),
{
    lemma_first_match_bound(ks, reps(ks, i as nat), i);
    lemma_reps_grow(ks, (i + 1) as nat, ks.len());
}

proof fn lemma_merged_valid(g: RuleSet, ks: Seq<Seq<LR1Item>>, items: Seq<Seq<LR1Item>>, grp: int, n: nat)
    requires
        n <= items.len(),
        forall|q: int| 0 <= q < items.len() ==> all_valid1(g, #[trigger] items[q]),
    ensures
        all_valid1(g, merged_upto(ks, items, grp, n)),
    decreases n,
{
    if n > 0 {
        lemma_merged_valid(g, ks, items, grp, (n - 1) as nat);
        let a = merged_upto(ks, items, grp, (n - 1) as nat);
        let b = if group_of(ks, n - 1) == grp { items[n - 1] } else { seq![] };
        assert(all_valid1(g, items[n - 1]));
        assert forall|j: int| 0 <= j < (a + b).len() implies item1_valid(g, #[trigger] (a + b)[j]) by {
            if j < a.len() {
                assert((a + b)[j] == a[j]);
            } else {
                assert((a + b)[j] == b[j - a.len()]);
            }
        }
    }
}

/// Every entry of `li` has a valid core and lookaheads of the universe.
pub open spec fn lalr_valid(g: RuleSet, li: Seq<(LR0Item, Seq<RuleElem>)>) -> bool {
    forall|j: int| 0 <= j < li.len() ==> item_valid(g, (#[trigger] li[j]).0)
        && forall|q: int| 0 <= q < li[j].1.len() ==> in_universe(#[trigger] li[j].1[q], g.nt())
}

proof fn lemma_lalr_items_valid(g: RuleSet, s: Seq<LR1Item>)
    requires
        all_valid1(g, s),
    ensures
        lalr_valid(g, lalr_items(s)),
    decreases s.len(),
{
    if s.len() > 0 {
        assert(all_valid1(g, s.drop_last())) by {
            assert forall|j: int| 0 <= j < s.drop_last().len() implies item1_valid(g, #[trigger] s.drop_last()[j]) by {
                assert(s.drop_last()[j] == s[j]);
            }
        }
        lemma_lalr_items_valid(g, s.drop_last());
        assert(item1_valid(g, s[s.len() - 1]));
        let r = lalr_items(s.drop_last());
        let x = s.last();
        let c = core_of(x);
        if exists|j: int| 0 <= j < r.len() && r[j].0 == c {
            let j = core_pos(r, c);
            if !r[j].1.contains(x.la_token) {
                let r2 = r.update(j, (c, r[j].1.push(x.la_token)));
                assert forall|jj: int| 0 <= jj < r2.len() implies item_valid(g, (#[trigger] r2[jj]).0)
                    && forall|q: int| 0 <= q < r2[jj].1.len() ==> in_universe(#[trigger] r2[jj].1[q], g.nt()) by {
                    if jj == j {
                        assert forall|q: int| 0 <= q < r2[jj].1.len() implies in_universe(#[trigger] r2[jj].1[q], g.nt()) by {
                            if q < r[j].1.len() {
                                assert(r2[jj].1[q] == r[j].1[q]);
                            }
                        }
                    }
                }
            }
        }
    }
}

proof fn lemma_las_row_len(nt: nat, las: Seq<RuleElem>)
    requires
        forall|q: int| 0 <= q < las.len() ==> in_universe(#[trigger] las[q], nt),
    ensures
        las_row(nt, las).len() == nt + 2,
    decreases las.len(),
{
    if las.len() > 0 {
        assert forall|q: int| 0 <= q < las.drop_last().len() implies in_universe(#[trigger] las.drop_last()[q], nt) by {
            assert(las.drop_last()[q] == las[q]);
        }
        lemma_las_row_len(nt, las.drop_last());
        assert(in_universe(las[las.len() - 1], nt));
    }
}

proof fn lemma_lalr_marks_valid(g: RuleSet, dummy: int, li: Seq<(LR0Item, Seq<RuleElem>)>)
    requires
        lalr_valid(g, li),
    ensures
        marks_valid(lalr_marks(g, dummy, li), g.nt(), g.rules@.len()),
    decreases li.len(),
{
    if li.len() > 0 {
        assert(lalr_valid(g, li.drop_last())) by {
            assert forall|j: int| 0 <= j < li.drop_last().len() implies item_valid(g, (#[trigger] li.drop_last()[j]).0)
                && forall|q: int| 0 <= q < li.drop_last()[j].1.len() ==> in_universe(#[trigger] li.drop_last()[j].1[q], g.nt()) by {
                assert(li.drop_last()[j] == li[j]);
                assert(item_valid(g, li[j].0));
            }
        }
        lemma_lalr_marks_valid(g, dummy, li.drop_last());
        assert(item_valid(g, li[li.len() - 1].0));
        assert forall|q: int| 0 <= q < li.last().1.len() implies in_universe(#[trigger] li.last().1[q], g.nt()) by {
            assert(in_universe(li[li.len() - 1].1[q], g.nt()));
        }
        lemma_las_row_len(g.nt(), li.last().1);
    }
}

/// The row of the lookaheads `las`.
fn las_row_of(nt: usize, las: &Vec<RuleElem>) -> (res: Vec<bool>)
    requires
        nt + 2 < usize::MAX,
        forall|q: int| 0 <= q < las@.len() ==> in_universe(#[trigger] las@[q], nt as nat),
    ensures
        res@ == las_row(nt as nat, las@),
{
    let mut row = new_row(nt + 2);
    assert(row@ == las_row(nt as nat, las@.subrange(0, 0)));
    let mut i: usize = 0;
    while i < las.len()
        invariant
            nt + 2 < usize::MAX,
            forall|q: int| 0 <= q < las@.len() ==> in_universe(#[trigger] las@[q], nt as nat),
            i <= las@.len(),
            row@ == las_row(nt as nat, las@.subrange(0, i as int)),
            row@.len() == nt + 2,
        decreases las@.len() - i,
    {
        let la = las[i];
        assert(in_universe(las@[i as int], nt as nat));
        let k: usize = match la {
            RuleElem::Term(t) => t,
            RuleElem::Epsilon => nt,
            _ => nt + 1,
        };
        assert(k == elem_index(la, nt as nat));
        row.set(k, true);
        proof {
            let cur = las@.subrange(0, i + 1);
            assert(cur.drop_last() == las@.subrange(0, i as int));
            assert(cur.last() == la);
        }
        i = i + 1;
    }
    assert(las@.subrange(0, las@.len() as int) == las@);
    row
}

/// The marks of one LALR(1) state.
fn lalr_state_marks(g: &RuleSet, dummy: usize, items: &Vec<LALR1Item>) -> (res: Vec<Mark>)
    requires
        g.wf(),
        lalr_valid(*g, lalr_views(items@)),
    ensures
        marks_of(res@) == lalr_marks(*g, dummy as int, lalr_views(items@)),
{
    let mut res: Vec<Mark> = Vec::new();
    let mut i: usize = 0;
    while i < items.len()
        invariant
            g.wf(),
            lalr_valid(*g, lalr_views(items@)),
            i <= items@.len(),
            marks_of(res@) == lalr_marks(*g, dummy as int, lalr_views(items@).subrange(0, i as int)),
        decreases items@.len() - i,
    {
        let item = &items[i];
        let ghost li = lalr_views(items@);
        assert(li[i as int] == lalr_view(*item));
        assert(item_valid(*g, li[i as int].0));
        let ghost pre = li.subrange(0, i as int);
        let ghost cur = li.subrange(0, i + 1);
        assert(cur.drop_last() == pre);
        assert(cur.last() == lalr_view(*item));
        let ghost old_res = res@;
        let core = LR0Item { rule: item.rule, dot_pos: item.dot_pos };
        if core.check_next_elem(g).is_none() {
            assert forall|q: int| 0 <= q < item.la_tokens@.len() implies in_universe(#[trigger] item.la_tokens@[q], g.nt()) by {
                assert(li[i as int].1[q] == item.la_tokens@[q]);
            }
            let m = Mark { rule: item.rule, las: las_row_of(g.num_terms, &item.la_tokens), accept: item.rule == dummy };
            res.push(m);
            assert(marks_of(res@) == marks_of(old_res).push(mark_view(res@[res@.len() - 1])));
        }
        i = i + 1;
    }
    assert(lalr_views(items@).subrange(0, items@.len() as int) == lalr_views(items@));
    res
}

/// The LALR(1) parse table of a grammar.
pub struct LALR1Table {}

impl LALR1Table {
    /// Builds the LALR(1) parse table of `ruleset`: adds the start rule
    /// `__top_dummy ::= <top>`, builds the FIRST sets, the LR(1) automaton
    /// and from it the LALR(1) automaton (merging kernels), and marks in each
    /// state every completed kernel item as a reduction on the columns of its lookaheads, and
    /// the completed start item also as acceptance at the end of the input.
    /// Fails with a conflict when two actions fall into one cell.
    pub fn init(ruleset: &RuleSet) -> (res: Result<LRTable, DiagnosticError>)
        requires
            ruleset.wf(),
            ruleset.rules@.len() + 1 < usize::MAX,
            ruleset.num_nonterms + 2 < usize::MAX,
        ensures
            exists|aug: RuleSet, ks: Seq<Seq<LR1Item>>, items: Seq<Seq<LR1Item>>, nexts: Seq<Seq<(RuleElem, usize)>>, edges: Seq<(usize, usize, RuleElem)>|
                #![trigger lr1_automaton(aug, ks, items, nexts, edges)]
                {
                    &&& is_augmentation(*ruleset, aug)
                    &&& lr1_automaton(aug, ks, items, nexts, edges)
                    &&& (res is Ok <==> table_conflict_free(lalr_edges(ks, edges), lalr_table_marks(aug, ruleset.rules@.len() as int, ks, ks), aug.nt()))
                    &&& (res matches Ok(t) ==> table_matches(t, aug, lalr_edges(ks, edges), lalr_table_marks(aug, ruleset.rules@.len() as int, ks, ks)))
                },
            res matches Err(e) ==> is_conflict(e),
    {
        let (aug, dummy) = ruleset.augmented();
        proof {
            assert(aug.rules@[dummy as int].lhs == aug.top);
            assert(has_top_rule(aug));
        }
        let first_set = FirstSet::from(&aug);
        let lr1 = LR1DFA::from(&aug, &first_set);
        let ghost ks = lr1.kernels();
        let ghost items = lr1.item_sets();
        let ghost nexts = lr1.nexts();
        proof {
            lemma_lr1_edges_valid(aug, ks, items, nexts, lr1.edges@);
            assert forall|e: int| 0 <= e < lr1.edges@.len() implies (#[trigger] lr1.edges@[e]).0 < lr1.nodes@.len() && lr1.edges@[e].1 < lr1.nodes@.len() by {
                let (from, to, x) = lr1.edges@[e];
            }
        }
        let dfa = LALR1DFA::from(&lr1);
        let ghost states = lalr_states(ks, ks);
        let n = dfa.nodes.len();
        let mut marks: Vec<Vec<Mark>> = Vec::new();
        let mut s: usize = 0;
        while s < n
            invariant
                aug.wf(),
                lr1.is_lr1_automaton(aug, first_set),
                ks == lr1.kernels(),
                items == lr1.item_sets(),
                states == lalr_states(ks, ks),
                n == dfa.nodes@.len(),
                n == num_groups(ks),
                forall|grp: int| 0 <= grp < n ==> lalr_views((#[trigger] dfa.nodes@[grp]).itemset.items@) == states[grp],
                s <= n,
                marks@.len() == s,
                forall|q: int| 0 <= q < s ==> marks_of((#[trigger] marks@[q])@) == lalr_marks(aug, dummy as int, states[q]),
            decreases n - s,
        {
            proof {
                assert(lalr_views(dfa.nodes@[s as int].itemset.items@) == states[s as int]);
                assert forall|q: int| 0 <= q < ks.len() implies all_valid1(aug, #[trigger] ks[q]) by {}
                lemma_merged_valid(aug, ks, ks, s as int, ks.len());
                lemma_lalr_items_valid(aug, merged_upto(ks, ks, s as int, ks.len()));
            }
            let m = lalr_state_marks(&aug, dummy, &dfa.nodes[s].itemset.items);
            marks.push(m);
            s = s + 1;
        }
        let ghost all = lalr_table_marks(aug, dummy as int, ks, ks);
        proof {
            assert forall|q: int| 0 <= q < marks@.len() implies marks_valid(marks_of((#[trigger] marks@[q])@), aug.nt(), aug.rules@.len()) by {
                lemma_merged_valid(aug, ks, ks, q, ks.len());
                lemma_lalr_items_valid(aug, merged_upto(ks, ks, q, ks.len()));
                lemma_lalr_marks_valid(aug, dummy as int, states[q]);
            }
            assert(Seq::new(marks@.len(), |q: int| marks_of(marks@[q]@)) == all);
            assert(edges_valid(dfa.edges@, n as nat, aug.nt(), aug.nn())) by {
                assert forall|e: int| 0 <= e < dfa.edges@.len() implies {
                    let (from, to, x) = #[trigger] dfa.edges@[e];
                    from < n && to < n && match x {
                        RuleElem::Term(t) => t < aug.nt(),
                        RuleElem::NonTerm(m) => m < aug.nn(),
                        _ => true,
                    }
                } by {
                    let (from, to, x) = lr1.edges@[e];
                    lemma_group_bound(ks, from as int);
                    lemma_group_bound(ks, to as int);
                }
            }
            lemma_group_bound(ks, 0);
        }
        let res = build_table(&aug, &dfa.edges, &marks);
        proof {
            assert(lr1_automaton(aug, ks, items, nexts, lr1.edges@));
        }
        res
    }
}

/// The LALR(1) parser: the LALR(1) table of a grammar and the LR driver.
pub struct LALR1 {
    pub table: LRTable,
}

impl LALR1 {
    /// The parser of `ruleset`; fails where its LALR(1) table has a
    /// conflict.
    pub fn init(ruleset: &RuleSet) -> (res: Result<LALR1, DiagnosticError>)
        requires
            ruleset.wf(),
            ruleset.rules@.len() + 1 < usize::MAX,
            ruleset.num_nonterms + 2 < usize::MAX,
        ensures
            exists|aug: RuleSet, ks: Seq<Seq<LR1Item>>, items: Seq<Seq<LR1Item>>, nexts: Seq<Seq<(RuleElem, usize)>>, edges: Seq<(usize, usize, RuleElem)>|
                #![trigger lr1_automaton(aug, ks, items, nexts, edges)]
                {
                    &&& is_augmentation(*ruleset, aug)
                    &&& lr1_automaton(aug, ks, items, nexts, edges)
                    &&& (res is Ok <==> table_conflict_free(lalr_edges(ks, edges), lalr_table_marks(aug, ruleset.rules@.len() as int, ks, ks), aug.nt()))
                    &&& (res matches Ok(p) ==> table_matches(p.table, aug, lalr_edges(ks, edges), lalr_table_marks(aug, ruleset.rules@.len() as int, ks, ks)))
                },
            res matches Err(e) ==> is_conflict(e),
    {
        match LALR1Table::init(ruleset) {
            Ok(table) => Ok(LALR1 { table }),
            Err(e) => Err(e),
        }
    }

    /// Parses `tokens`, reporting the events of the LR driver.
    pub fn run<'input>(&self, tokens: &Vec<Token<'input>>) -> (events: Vec<ParseEvent<'input>>)
        requires
            self.table.wf(),
            forall|i: int| 0 <= i < tokens@.len() ==> (#[trigger] tokens@[i]).kind < self.table.num_terms,
        ensures
            exists|fuel: nat, evs: Seq<(EventKind, nat)>|
                parse_run(self.table, tokens@, fuel) == Some(evs) && events_match(events@, evs, tokens@),
    {
        parse(&self.table, tokens)
    }
}

/// The row of the lookaheads `las` holds the column of each of them.
proof fn lemma_las_row_has(nt: nat, las: Seq<RuleElem>, e: RuleElem)
    requires
        forall|q: int| 0 <= q < las.len() ==> in_universe(#[trigger] las[q], nt),
        las.contains(e),
    ensures
        0 <= elem_index(e, nt) < nt + 2,
        las_row(nt, las)[elem_index(e, nt)],
    decreases las.len(),
{
    let p = las.drop_last();
    assert forall|q: int| 0 <= q < p.len() implies in_universe(#[trigger] p[q], nt) by {
        assert(p[q] == las[q]);
    }
    lemma_las_row_len(nt, p);
    let w = choose|q: int| 0 <= q < las.len() && las[q] == e;
    assert(in_universe(las[w], nt));
    if las.last() != e {
        assert(w != las.len() - 1);
        assert(p[w] == e);
        lemma_las_row_has(nt, p, e);
    }
    assert(in_universe(las[las.len() - 1], nt));
}

/// Each completed entry of an LALR(1) state has a mark by its rule on the
/// row of its lookaheads.
proof fn lemma_lalr_marks_items(g: RuleSet, dummy: int, li: Seq<(LR0Item, Seq<RuleElem>)>, j: int)
    requires
        0 <= j < li.len(),
        next_elem(g, li[j].0) is None,
    ensures
        exists|m: int| 0 <= m < lalr_marks(g, dummy, li).len() && (#[trigger] lalr_marks(g, dummy, li)[m]).0 == li[j].0.rule
            && lalr_marks(g, dummy, li)[m].1 == las_row(g.nt(), li[j].1),
    decreases li.len(),
{
    let p = li.drop_last();
    let rest = lalr_marks(g, dummy, p);
    let all = lalr_marks(g, dummy, li);
    if j == li.len() - 1 {
        assert(all[rest.len() as int].0 == li[j].0.rule);
    } else {
        assert(p[j] == li[j]);
        lemma_lalr_marks_items(g, dummy, p, j);
        let m = choose|m: int| 0 <= m < rest.len() && (#[trigger] rest[m]).0 == p[j].0.rule && rest[m].1 == las_row(g.nt(), p[j].1);
        assert(all[m] == rest[m]);
    }
}

/// In an LALR(1) table built without conflict, every completed kernel item
/// `[A -> α ., L]` of a state reduces by its rule on every token of its
/// lookahead set `L`.
pub proof fn lemma_lalr1_table_reduces(
    t: LRTable,
    aug: RuleSet,
    dummy: int,
    ks: Seq<Seq<LR1Item>>,
    items: Seq<Seq<LR1Item>>,
    edges: Seq<(usize, usize, RuleElem)>,
    grp: int,
    j: int,
    k: usize,
)
    requires
        table_matches(t, aug, edges, lalr_table_marks(aug, dummy, ks, items)),
        0 <= grp < num_groups(ks),
        lalr_valid(aug, lalr_states(ks, items)[grp]),
        0 <= j < lalr_states(ks, items)[grp].len(),
        next_elem(aug, lalr_states(ks, items)[grp][j].0) is None,
        lalr_states(ks, items)[grp][j].1.contains(RuleElem::Term(k)),
    ensures
        t.action(grp, Some(k)) == LRAction::Reduce(lalr_states(ks, items)[grp][j].0.rule),
{
    let li = lalr_states(ks, items)[grp];
    let marks = lalr_table_marks(aug, dummy, ks, items)[grp];
    assert(marks == lalr_marks(aug, dummy, li));
    lemma_lalr_marks_items(aug, dummy, li, j);
    let m = choose|m: int| 0 <= m < marks.len() && (#[trigger] marks[m]).0 == li[j].0.rule && marks[m].1 == las_row(aug.nt(), li[j].1);
    assert(forall|q: int| 0 <= q < li[j].1.len() ==> in_universe(#[trigger] li[j].1[q], aug.nt()));
    lemma_las_row_has(aug.nt(), li[j].1, RuleElem::Term(k));
    assert(valid_tok(Some(k), aug.nt()));
    assert(las_has(marks[m].1, Some(k), aug.nt()));
    lemma_cell_after_reduces(crate::marks::base_cell(edges, grp, Some(k)), marks, k, aug.nt(), m);
}

/// A column of the row of the lookaheads `las` is that of one of them;
/// the index of that lookahead is returned.
proof fn lemma_las_row_source(nt: nat, las: Seq<RuleElem>, k: int) -> (q: int)
    requires
        forall|q: int| 0 <= q < las.len() ==> in_universe(#[trigger] las[q], nt),
        0 <= k < nt + 2,
        las_row(nt, las)[k],
    ensures
        0 <= q < las.len(),
        elem_index(las[q], nt) == k,
    decreases las.len(),
{
    if las.len() == 0 {
        assert(!las_row(nt, las)[k]);
        0
    } else {
        let p = las.drop_last();
        assert forall|q: int| 0 <= q < p.len() implies in_universe(#[trigger] p[q], nt) by {
            assert(p[q] == las[q]);
        }
        lemma_las_row_len(nt, p);
        assert(in_universe(las[las.len() - 1], nt));
        if elem_index(las.last(), nt) == k {
            las.len() - 1
        } else {
            let q = lemma_las_row_source(nt, p, k);
            assert(p[q] == las[q]);
            q
        }
    }
}

/// Each mark of an LALR(1) state comes from a completed entry of that
/// state, by its rule on the row of its lookaheads; the entry's index is
/// returned.
proof fn lemma_lalr_mark_source(g: RuleSet, dummy: int, li: Seq<(LR0Item, Seq<RuleElem>)>, m: int) -> (j: int)
    requires
        0 <= m < lalr_marks(g, dummy, li).len(),
    ensures
        0 <= j < li.len(),
        next_elem(g, li[j].0) is None,
        lalr_marks(g, dummy, li)[m].0 == li[j].0.rule,
        lalr_marks(g, dummy, li)[m].1 == las_row(g.nt(), li[j].1),
    decreases li.len(),
{
    let p = li.drop_last();
    let rest = lalr_marks(g, dummy, p);
    let all = lalr_marks(g, dummy, li);
    let (c, las) = li.last();
    if next_elem(g, c) is None {
        assert(all == rest.push((c.rule, las_row(g.nt(), las), c.rule == dummy)));
        if m < rest.len() {
            let j = lemma_lalr_mark_source(g, dummy, p, m);
            assert(p[j] == li[j]);
            j
        } else {
            li.len() - 1
        }
    } else {
        assert(all == rest);
        let j = lemma_lalr_mark_source(g, dummy, p, m);
        assert(p[j] == li[j]);
        j
    }
}

/// In an LALR(1) table, a reduction in the cell of a token (or of the end
/// of the input) comes from a completed kernel item of that state by that
/// rule whose lookahead set holds that token (or `EOF`): an item reduces on
/// its own lookaheads and on no other column.
pub proof fn lemma_lalr1_table_reduce_source(
    t: LRTable,
    aug: RuleSet,
    dummy: int,
    ks: Seq<Seq<LR1Item>>,
    items: Seq<Seq<LR1Item>>,
    edges: Seq<(usize, usize, RuleElem)>,
    grp: int,
    tok: Option<usize>,
    r: usize,
)
    requires
        table_matches(t, aug, edges, lalr_table_marks(aug, dummy, ks, items)),
        0 <= grp < num_groups(ks),
        lalr_valid(aug, lalr_states(ks, items)[grp]),
        valid_tok(tok, aug.nt()),
        t.action(grp, tok) == LRAction::Reduce(r),
    ensures
        exists|j: int| #![trigger lalr_states(ks, items)[grp][j]]
            0 <= j < lalr_states(ks, items)[grp].len() && next_elem(aug, lalr_states(ks, items)[grp][j].0) is None
                && lalr_states(ks, items)[grp][j].0.rule == r && lalr_states(ks, items)[grp][j].1.contains(column_elem(tok)),
{
    let li = lalr_states(ks, items)[grp];
    let marks = lalr_table_marks(aug, dummy, ks, items)[grp];
    let nt = aug.nt();
    assert(marks == lalr_marks(aug, dummy, li));
    assert(crate::marks::base_cell(edges, grp, tok) != LRAction::Reduce(r));
    lemma_cell_after_source(crate::marks::base_cell(edges, grp, tok), marks, tok, nt, r);
    let m = choose|m: int| 0 <= m < marks.len() && (#[trigger] marks[m]).0 == r && las_has(marks[m].1, tok, nt);
    let j = lemma_lalr_mark_source(aug, dummy, li, m);
    let las = li[j].1;
    assert(forall|q: int| 0 <= q < las.len() ==> in_universe(#[trigger] las[q], nt));
    let k: int = match tok {
        Some(k) => k as int,
        None => nt + 1int,
    };
    let q = lemma_las_row_source(nt, las, k);
    assert(in_universe(las[q], nt));
    assert(las[q] == column_elem(tok));
    assert(li[j] == lalr_states(ks, items)[grp][j]);
}

/// A completed start entry of an LALR(1) state has a mark that accepts.
proof fn lemma_lalr_marks_accept(g: RuleSet, dummy: int, li: Seq<(LR0Item, Seq<RuleElem>)>, j: int)
    requires
        0 <= j < li.len(),
        next_elem(g, li[j].0) is None,
        li[j].0.rule == dummy,
    ensures
        exists|m: int| 0 <= m < lalr_marks(g, dummy, li).len() && (#[trigger] lalr_marks(g, dummy, li)[m]).2,
    decreases li.len(),
{
    let p = li.drop_last();
    let rest = lalr_marks(g, dummy, p);
    let all = lalr_marks(g, dummy, li);
    if j == li.len() - 1 {
        assert(all[rest.len() as int].2);
    } else {
        assert(p[j] == li[j]);
        lemma_lalr_marks_accept(g, dummy, p, j);
        let m = choose|m: int| 0 <= m < rest.len() && (#[trigger] rest[m]).2;
        assert(all[m] == rest[m]);
    }
}

/// In an LALR(1) table built without conflict, a state with the completed
/// start item accepts at the end of the input.
pub proof fn lemma_lalr1_table_accepts(
    t: LRTable,
    aug: RuleSet,
    dummy: int,
    ks: Seq<Seq<LR1Item>>,
    items: Seq<Seq<LR1Item>>,
    edges: Seq<(usize, usize, RuleElem)>,
    grp: int,
    j: int,
)
    requires
        table_matches(t, aug, edges, lalr_table_marks(aug, dummy, ks, items)),
        0 <= grp < num_groups(ks),
        0 <= j < lalr_states(ks, items)[grp].len(),
        next_elem(aug, lalr_states(ks, items)[grp][j].0) is None,
        lalr_states(ks, items)[grp][j].0.rule == dummy,
    ensures
        t.action(grp, None) == LRAction::Accept,
{
    let li = lalr_states(ks, items)[grp];
    let marks = lalr_table_marks(aug, dummy, ks, items)[grp];
    assert(marks == lalr_marks(aug, dummy, li));
    lemma_lalr_marks_accept(aug, dummy, li, j);
    let m = choose|m: int| 0 <= m < marks.len() && (#[trigger] marks[m]).2;
    assert(valid_tok(None, aug.nt()));
    lemma_cell_after_accepts(crate::marks::base_cell(edges, grp, None), marks, aug.nt(), m);
}

} // verus!
