//! The LR(0) automaton of a grammar: the canonical collection of LR(0) item
//! sets and the transitions between them.
use vstd::prelude::*;
use crate::grammar::{RuleElem, RuleSet};
use crate::lr0::{
    LR0Item, LR0ItemSet, item_from, next_elem, seq_subset, seq_set_eq, is_closure0, goto_has, all_valid,
    same_set, item_valid,
};
use crate::table::edges_valid;

verus! {

/// A state of the LR(0) automaton: its kernel, the closure of the kernel,
/// and its transitions `(symbol, target state)`.
pub struct LR0DFANode<'a> {
    pub id: usize,
    pub kernel: Vec<LR0Item>,
    pub itemset: LR0ItemSet<'a>,
    pub next: Vec<(RuleElem, usize)>,
}

/// The LR(0) automaton: states by id, and the transitions
/// `(from, to, symbol)`.
pub struct LR0DFA<'a> {
    pub nodes: Vec<LR0DFANode<'a>>,
    pub edges: Vec<(usize, usize, RuleElem)>,
}

/// The first rule of `g` whose left side is the start symbol.
pub open spec fn is_top_rule(g: RuleSet, r: int) -> bool {
    &&& 0 <= r < g.rules@.len()
    &&& g.rules@[r].lhs == g.top
    &&& forall|q: int| 0 <= q < r ==> g.rules@[q].lhs != g.top
}

pub open spec fn has_top_rule(g: RuleSet) -> bool {
    exists|r: int| 0 <= r < g.rules@.len() && g.rules@[r].lhs == g.top
}

/// State `j` is the target of a transition from a state of smaller id.
pub open spec fn entered_earlier(edges: Seq<(usize, usize, RuleElem)>, j: int) -> bool {
    exists|e: int| 0 <= e < edges.len() && (#[trigger] edges[e]).1 == j && edges[e].0 < j
}

/// The transitions of a state are those of its item set: one per symbol
/// that stands after a dot, to a state whose kernel is the successor set.
pub open spec fn node_transitions_ok(g: RuleSet, items: Seq<LR0Item>, next: Seq<(RuleElem, usize)>, kernels: Seq<Seq<LR0Item>>) -> bool {
    &&& forall|a: int, b: int| 0 <= a < b < next.len() ==> next[a].0 != next[b].0
    &&& forall|a: int| 0 <= a < next.len() ==> (#[trigger] next[a]).1 < kernels.len()
    &&& forall|a: int| 0 <= a < next.len() ==> kernels[(#[trigger] next[a]).1 as int].len() > 0
    &&& forall|a: int, it2: LR0Item|
        0 <= a < next.len() ==> (#[trigger] kernels[next[a].1 as int].contains(it2) <==> goto_has(g, items, next[a].0, it2))
    &&& forall|it: LR0Item|
        #[trigger] items.contains(it) && next_elem(g, it) is Some ==> exists|a: int|
            0 <= a < next.len() && next[a].0 == next_elem(g, it)->0
}

/// The states (kernels, item sets, transitions) and the edge list are the
/// canonical LR(0) automaton of `g`: state 0 is the closure of the initial
/// item of the start rule; each state is the closure of its kernel; the
/// transitions of each state lead to the states whose kernels are its
/// successor sets; no two states have the same kernel; every state but the
/// first is entered from an earlier one; and the edge list lists exactly the
/// transitions of all states, each once.
pub open spec fn lr0_automaton(
    g: RuleSet,
    ks: Seq<Seq<LR0Item>>,
    items: Seq<Seq<LR0Item>>,
    nexts: Seq<Seq<(RuleElem, usize)>>,
    edges: Seq<(usize, usize, RuleElem)>,
) -> bool {
    let n = ks.len();
    &&& n > 0
    &&& items.len() == n
    &&& nexts.len() == n
    &&& exists|r: int| is_top_rule(g, r) && ks[0] == seq![item_from(g, r)]
    &&& forall|i: int| 0 <= i < n ==> all_valid(g, #[trigger] items[i])
    &&& forall|i: int| 0 <= i < n ==> all_valid(g, #[trigger] ks[i])
    &&& forall|i: int| 0 <= i < n ==> is_closure0(g, #[trigger] ks[i], items[i])
    &&& forall|i: int| 0 <= i < n ==> node_transitions_ok(g, #[trigger] items[i], nexts[i], ks)
    &&& forall|i: int, j: int| 0 <= i < j < n ==> !seq_set_eq(#[trigger] ks[i], #[trigger] ks[j])
    &&& forall|j: int| 0 < j < n ==> #[trigger] entered_earlier(edges, j)
    &&& edges.no_duplicates()
    &&& forall|e: int| 0 <= e < edges.len() ==> {
        let (from, to, x) = #[trigger] edges[e];
        from < n && nexts[from as int].contains((x, to))
    }
    &&& forall|i: int, a: int| 0 <= i < n && 0 <= a < nexts[i].len() ==> #[trigger] edges.contains(
        (i as usize, nexts[i][a].1, nexts[i][a].0),
    )
}

/// The elements of `s` at the positions where `keep` holds, in order.
pub open spec fn filter_by<T>(s: Seq<T>, keep: Seq<bool>) -> Seq<T>
    decreases s.len(),
{
    if s.len() == 0 {
        seq![]
    } else {
        let r = filter_by(s.drop_last(), keep.subrange(0, s.len() - 1));
        if keep[s.len() - 1] {
            r.push(s.last())
        } else {
            r
        }
    }
}

pub open spec fn rules_of_items(s: Seq<LR0Item>) -> Seq<usize> {
    Seq::new(s.len(), |i: int| s[i].rule)
}

impl<'a> LR0DFANode<'a> {
    /// The rules of the kernel items of this state for which `cond` holds, in the
    /// order of the items.
    pub fn find_all_by<F: Fn(&LR0Item) -> bool>(&self, cond: F) -> (res: Vec<usize>)
        requires
            forall|it: LR0Item| #[trigger] cond.requires((&it,)),
        ensures
            exists|keep: Seq<bool>|
                #![trigger filter_by(rules_of_items(self.kernel@), keep)]
                keep.len() == self.kernel@.len() && (forall|i: int|
                    0 <= i < keep.len() ==> cond.ensures((&self.kernel@[i],), #[trigger] keep[i]))
                    && res@ == filter_by(rules_of_items(self.kernel@), keep),
    {
        let items = &self.kernel;
        let mut res: Vec<usize> = Vec::new();
        let ghost mut keep: Seq<bool> = seq![];
        let mut i: usize = 0;
        while i < items.len()
            invariant
                forall|it: LR0Item| #[trigger] cond.requires((&it,)),
                i <= items@.len(),
                keep.len() == i,
                forall|q: int| 0 <= q < i ==> cond.ensures((&items@[q],), #[trigger] keep[q]),
                res@ == filter_by(rules_of_items(items@.subrange(0, i as int)), keep),
            decreases items@.len() - i,
        {
            let it = items[i];
            let b = cond(&it);
            let ghost pre = items@.subrange(0, i as int);
            let ghost cur = items@.subrange(0, i + 1);
            assert(rules_of_items(cur).drop_last() == rules_of_items(pre));
            assert(keep.push(b).subrange(0, i as int) == keep);
            if b {
                res.push(it.rule);
            }
            proof {
                keep = keep.push(b);
            }
            i = i + 1;
        }
        assert(items@.subrange(0, items@.len() as int) == items@);
        res
    }

    /// Whether some kernel item of this state meets `cond`; the items are tried in
    /// order up to the first that does.
    pub fn contains_by<F: Fn(&LR0Item) -> bool>(&self, cond: F) -> (res: bool)
        requires
            forall|it: LR0Item| #[trigger] cond.requires((&it,)),
        ensures
            res ==> exists|i: int| #![trigger self.kernel@[i]] 0 <= i < self.kernel@.len() && cond.ensures((&self.kernel@[i],), true),
            !res ==> forall|i: int| 0 <= i < self.kernel@.len() ==> cond.ensures((&self.kernel@[i],), false),
    {
        let items = &self.kernel;
        let mut i: usize = 0;
        while i < items.len()
            invariant
                items@ == self.kernel@,
                forall|it: LR0Item| #[trigger] cond.requires((&it,)),
                i <= items@.len(),
                forall|q: int| 0 <= q < i ==> cond.ensures((&items@[q],), false),
            decreases items@.len() - i,
        {
            let it = items[i];
            if cond(&it) {
                assert(cond.ensures((&self.kernel@[i as int],), true));
                return true;
            }
            i = i + 1;
        }
        false
    }

    /// Whether some kernel item of this state has the rule `rule`.
    pub fn contains(&self, rule: usize) -> (res: bool)
        ensures
            res == exists|i: int| 0 <= i < self.kernel@.len() && #[trigger] self.kernel@[i].rule == rule,
    {
        let mut i: usize = 0;
        while i < self.kernel.len()
            invariant
                i <= self.kernel@.len(),
                forall|q: int| 0 <= q < i ==> self.kernel@[q].rule != rule,
            decreases self.kernel@.len() - i,
        {
            if self.kernel[i].rule == rule {
                assert(self.kernel@[i as int].rule == rule);
                return true;
            }
            i = i + 1;
        }
        false
    }

    /// The rule `rule` once for each kernel item of this state with that rule.
    pub fn find_all(&self, rule: usize) -> (res: Vec<usize>)
        ensures
            res@ == filter_by(
                rules_of_items(self.kernel@),
                Seq::new(self.kernel@.len(), |i: int| self.kernel@[i].rule == rule),
            ),
    {
        let items = &self.kernel;
        let ghost keep_all = Seq::new(items@.len(), |i: int| items@[i].rule == rule);
        let mut res: Vec<usize> = Vec::new();
        let mut i: usize = 0;
        while i < items.len()
            invariant
                i <= items@.len(),
                keep_all == Seq::new(items@.len(), |i: int| items@[i].rule == rule),
                res@ == filter_by(rules_of_items(items@.subrange(0, i as int)), keep_all.subrange(0, i as int)),
            decreases items@.len() - i,
        {
            let ghost pre = items@.subrange(0, i as int);
            let ghost cur = items@.subrange(0, i + 1);
            assert(rules_of_items(cur).drop_last() == rules_of_items(pre));
            assert(keep_all.subrange(0, i + 1).subrange(0, i as int) == keep_all.subrange(0, i as int));
            if items[i].rule == rule {
                res.push(items[i].rule);
            }
            i = i + 1;
        }
        assert(items@.subrange(0, items@.len() as int) == items@);
        assert(keep_all.subrange(0, items@.len() as int) == keep_all);
        res
    }
}

impl<'a> LR0DFA<'a> {
    pub open spec fn kernels(&self) -> Seq<Seq<LR0Item>> {
        Seq::new(self.nodes@.len(), |i: int| self.nodes@[i].kernel@)
    }

    pub open spec fn item_sets(&self) -> Seq<Seq<LR0Item>> {
        Seq::new(self.nodes@.len(), |i: int| self.nodes@[i].itemset.items@)
    }

    pub open spec fn nexts(&self) -> Seq<Seq<(RuleElem, usize)>> {
        Seq::new(self.nodes@.len(), |i: int| self.nodes@[i].next@)
    }

    /// The automaton is the canonical LR(0) automaton of `g`, its states
    /// numbered in order.
    pub open spec fn is_lr0_automaton(&self, g: RuleSet) -> bool {
        &&& forall|i: int| 0 <= i < self.nodes@.len() ==> (#[trigger] self.nodes@[i]).id == i
        &&& forall|i: int| 0 <= i < self.nodes@.len() ==> (#[trigger] self.nodes@[i]).itemset.ruleset == g
        &&& lr0_automaton(g, self.kernels(), self.item_sets(), self.nexts(), self.edges@)
    }

    /// Builds the canonical LR(0) automaton of the grammar, state by state
    /// from the start rule.
    pub fn from(ruleset: &'a RuleSet) -> (res: LR0DFA<'a>)
        requires
            ruleset.wf(),
            has_top_rule(*ruleset),
        ensures
            res.is_lr0_automaton(*ruleset),
    {
        let g = ruleset;
        let mut top: usize = 0;
        while top < g.rules.len()
            invariant
                top <= g.rules@.len(),
                has_top_rule(*g),
                forall|q: int| 0 <= q < top ==> g.rules@[q].lhs != g.top,
            ensures
                top <= g.rules@.len(),
                forall|q: int| 0 <= q < top ==> g.rules@[q].lhs != g.top,
                top < g.rules@.len() ==> g.rules@[top as int].lhs == g.top,
            decreases g.rules@.len() - top,
        {
            if g.rules[top].lhs == g.top {
                break;
            }
            top = top + 1;
        }
        assert(top < g.rules@.len() && is_top_rule(*g, top as int));
        let init_item = LR0Item::from(g, top);
        let mut k0: Vec<LR0Item> = Vec::new();
        k0.push(init_item);
        let mut kernels: Vec<Vec<LR0Item>> = Vec::new();
        kernels.push(k0);
        let mut nodes: Vec<LR0DFANode<'a>> = Vec::new();
        let mut edges: Vec<(usize, usize, RuleElem)> = Vec::new();
        let mut idx: usize = 0;
        assert(kernels@[0]@ == seq![item_from(*g, top as int)]);
        while idx < kernels.len()
            invariant
                g.wf(),
                is_top_rule(*g, top as int),
                kernels@.len() > 0,
                kernels@[0]@ == seq![item_from(*g, top as int)],
                idx <= kernels@.len(),
                nodes@.len() == idx,
                forall|i: int| 0 <= i < kernels@.len() ==> all_valid(*g, (#[trigger] kernels@[i])@),
                forall|i: int| 0 <= i < kernels@.len() ==> (#[trigger] kernels@[i])@.no_duplicates(),
                forall|i: int| 0 <= i < kernels@.len() ==> (#[trigger] kernels@[i])@.len() > 0,
                forall|i: int, j: int| 0 <= i < j < kernels@.len() ==> !seq_set_eq(#[trigger] kernels@[i]@, #[trigger] kernels@[j]@),
                forall|i: int| 0 <= i < idx ==> (#[trigger] nodes@[i]).id == i,
                forall|i: int| 0 <= i < idx ==> (#[trigger] nodes@[i]).kernel@ == kernels@[i]@,
                forall|i: int| 0 <= i < idx ==> (#[trigger] nodes@[i]).itemset.ruleset == g,
                forall|i: int| 0 <= i < idx ==> all_valid(*g, (#[trigger] nodes@[i]).itemset.items@),
                forall|i: int| 0 <= i < idx ==> is_closure0(*g, kernels@[i]@, (#[trigger] nodes@[i]).itemset.items@),
                forall|i: int| 0 <= i < idx ==> node_transitions_ok(*g, (#[trigger] nodes@[i]).itemset.items@, nodes@[i].next@, Seq::new(kernels@.len(), |q: int| kernels@[q]@)),
                forall|j: int| 0 < j < kernels@.len() ==> #[trigger] entered_earlier(edges@, j),
                edges@.no_duplicates(),
                forall|e: int| 0 <= e < edges@.len() ==> {
                    let (from, to, x) = #[trigger] edges@[e];
                    from < idx && nodes@[from as int].next@.contains((x, to))
                },
                forall|i: int, a: int| 0 <= i < idx && 0 <= a < nodes@[i].next@.len() ==> #[trigger] edges@.contains(
                    (i as usize, nodes@[i].next@[a].1, nodes@[i].next@[a].0),
                ),
            decreases (usize::MAX - idx) + (usize::MAX - kernels@.len()),
        {
            let ghost ks_before = Seq::new(kernels@.len(), |q: int| kernels@[q]@);
            let mut set = LR0ItemSet { items: copy_items(&kernels[idx]), ruleset: g };
            let succ = set.gen_next_sets();
            let mut next: Vec<(RuleElem, usize)> = Vec::new();
            let mut a: usize = 0;
            while a < succ.len()
                invariant
                    g.wf(),
                    is_top_rule(*g, top as int),
                    kernels@.len() > 0,
                    kernels@[0]@ == seq![item_from(*g, top as int)],
                    idx < kernels@.len(),
                    nodes@.len() == idx,
                    a <= succ@.len(),
                    next@.len() == a,
                    set.ruleset == g,
                    kernels@.len() >= ks_before.len(),
                    forall|q: int| 0 <= q < ks_before.len() ==> (#[trigger] kernels@[q])@ == ks_before[q],
                    // successor sets
                    forall|p: int, q: int| 0 <= p < q < succ@.len() ==> succ@[p].0 != succ@[q].0,
                    forall|p: int| 0 <= p < succ@.len() ==> (#[trigger] succ@[p]).1.items@.no_duplicates(),
                    forall|p: int| 0 <= p < succ@.len() ==> all_valid(*g, (#[trigger] succ@[p]).1.items@),
                    forall|p: int| 0 <= p < succ@.len() ==> (#[trigger] succ@[p]).1.items@.len() > 0,
                    forall|p: int, it2: LR0Item|
                        0 <= p < succ@.len() ==> (#[trigger] succ@[p].1.items@.contains(it2) <==> goto_has(
                            *g,
                            set.items@,
                            succ@[p].0,
                            it2,
                        )),
                    // kernels
                    forall|i: int| 0 <= i < kernels@.len() ==> all_valid(*g, (#[trigger] kernels@[i])@),
                    forall|i: int| 0 <= i < kernels@.len() ==> (#[trigger] kernels@[i])@.no_duplicates(),
                    forall|i: int| 0 <= i < kernels@.len() ==> (#[trigger] kernels@[i])@.len() > 0,
                    forall|i: int, j: int| 0 <= i < j < kernels@.len() ==> !seq_set_eq(#[trigger] kernels@[i]@, #[trigger] kernels@[j]@),
                    // the transitions found so far
                    forall|p: int| 0 <= p < a ==> (#[trigger] next@[p]).0 == succ@[p].0,
                    forall|p: int| 0 <= p < a ==> (#[trigger] next@[p]).1 < kernels@.len(),
                    forall|p: int| 0 <= p < a ==> seq_set_eq(kernels@[(#[trigger] next@[p]).1 as int]@, succ@[p].1.items@),
                    forall|j: int| 0 < j < kernels@.len() ==> #[trigger] entered_earlier(edges@, j),
                edges@.no_duplicates(),
                    forall|e: int| 0 <= e < edges@.len() ==> {
                        let (from, to, x) = #[trigger] edges@[e];
                        (from < idx && nodes@[from as int].next@.contains((x, to))) || (from == idx && next@.contains((x, to)))
                    },
                    forall|p: int| 0 <= p < a ==> #[trigger] edges@.contains((idx, next@[p].1, next@[p].0)),
                    forall|i: int, b: int| 0 <= i < idx && 0 <= b < nodes@[i].next@.len() ==> #[trigger] edges@.contains(
                        (i as usize, nodes@[i].next@[b].1, nodes@[i].next@[b].0),
                    ),
                decreases succ@.len() - a,
            {
                let x = succ[a].0;
                let ghost klen_before = kernels@.len();
                let ghost old_kernels = kernels@;
                let j = find_or_add_kernel(&mut kernels, &succ[a].1.items);
                let ghost old_edges = edges@;
                let ghost old_next = next@;
                proof {
                    assert forall|e: int| 0 <= e < edges@.len() implies #[trigger] edges@[e] != (idx, j, x) by {
                        let (from, to, y) = edges@[e];
                        if from == idx {
                            let q = choose|q: int| 0 <= q < next@.len() && next@[q] == (y, to);
                            assert(next@[q].0 == succ@[q].0);
                        }
                    }
                }
                let ghost pre_edges = edges@;
                edges.push((idx, j, x));
                next.push((x, j));
                proof {
                    assert forall|e1: int, e2: int| 0 <= e1 < edges@.len() && 0 <= e2 < edges@.len() && e1 != e2 implies edges@[e1] != edges@[e2] by {
                        if e1 < pre_edges.len() && e2 < pre_edges.len() {
                            assert(edges@[e1] == pre_edges[e1] && edges@[e2] == pre_edges[e2]);
                        } else if e1 < pre_edges.len() {
                            assert(edges@[e1] == pre_edges[e1]);
                        } else {
                            assert(edges@[e2] == pre_edges[e2]);
                        }
                    }
                }
                proof {
                    assert(next@[a as int] == (x, j));
                    assert(edges@[old_edges.len() as int] == (idx, j, x));
                    assert forall|e: int| 0 <= e < edges@.len() implies {
                        let (from, to, y) = #[trigger] edges@[e];
                        (from < idx && nodes@[from as int].next@.contains((y, to))) || (from == idx && next@.contains((y, to)))
                    } by {
                        if e < old_edges.len() {
                            assert(edges@[e] == old_edges[e]);
                            let (from, to, y) = old_edges[e];
                            if from == idx {
                                let q = choose|q: int| 0 <= q < old_next.len() && old_next[q] == (y, to);
                                assert(next@[q] == (y, to));
                            }
                        } else {
                            assert(next@.contains((x, j)));
                        }
                    }
                    assert forall|p: int| 0 <= p < a + 1 implies #[trigger] edges@.contains((idx, next@[p].1, next@[p].0)) by {
                        if p < a {
                            assert(old_edges.contains((idx, old_next[p].1, old_next[p].0)));
                            let q = choose|q: int| 0 <= q < old_edges.len() && old_edges[q] == (idx, old_next[p].1, old_next[p].0);
                            assert(edges@[q] == old_edges[q]);
                        } else {
                            assert(edges@[old_edges.len() as int] == (idx, j, x));
                        }
                    }
                    assert forall|i: int, b: int| 0 <= i < idx && 0 <= b < nodes@[i].next@.len() implies #[trigger] edges@.contains(
                        (i as usize, nodes@[i].next@[b].1, nodes@[i].next@[b].0),
                    ) by {
                        let t = (i as usize, nodes@[i].next@[b].1, nodes@[i].next@[b].0);
                        assert(old_edges.contains(t));
                        let q = choose|q: int| 0 <= q < old_edges.len() && old_edges[q] == t;
                        assert(edges@[q] == old_edges[q]);
                    }
                    assert forall|jj: int| 0 < jj < kernels@.len() implies #[trigger] entered_earlier(edges@, jj) by {
                        if jj < klen_before {
                            assert(entered_earlier(old_edges, jj));
                            let e = choose|e: int| 0 <= e < old_edges.len() && (#[trigger] old_edges[e]).1 == jj && old_edges[e].0 < jj;
                            assert(edges@[e] == old_edges[e]);
                        } else {
                            assert(jj == j);
                            assert(edges@[old_edges.len() as int] == (idx, j, x));
                        }
                    }
                    assert forall|p: int| 0 <= p < a + 1 implies seq_set_eq(kernels@[(#[trigger] next@[p]).1 as int]@, succ@[p].1.items@) by {
                        if p < a {
                            assert(next@[p] == old_next[p]);
                            assert(kernels@[old_next[p].1 as int] == old_kernels[old_next[p].1 as int]);
                        }
                    }
                    assert forall|q: int| 0 <= q < ks_before.len() implies (#[trigger] kernels@[q])@ == ks_before[q] by {
                        assert(kernels@[q] == old_kernels[q]);
                    }
                    assert forall|i1: int, j1: int| 0 <= i1 < j1 < kernels@.len() implies !seq_set_eq(#[trigger] kernels@[i1]@, #[trigger] kernels@[j1]@) by {
                        assert(kernels@[i1] == old_kernels[i1]);
                        if j1 < old_kernels.len() {
                            assert(kernels@[j1] == old_kernels[j1]);
                        }
                    }
                    assert forall|i1: int| 0 <= i1 < kernels@.len() implies all_valid(*g, (#[trigger] kernels@[i1])@) && kernels@[i1]@.no_duplicates() && kernels@[i1]@.len() > 0 by {
                        if i1 < old_kernels.len() {
                            assert(kernels@[i1] == old_kernels[i1]);
                        } else {
                            assert(kernels@[i1]@ == succ@[a as int].1.items@);
                        }
                    }
                }
                a = a + 1;
            }
            proof {
                let ks = Seq::new(kernels@.len(), |q: int| kernels@[q]@);
                assert forall|i: int| 0 <= i < idx implies node_transitions_ok(*g, (#[trigger] nodes@[i]).itemset.items@, nodes@[i].next@, ks) by {
                    let items = nodes@[i].itemset.items@;
                    let nx = nodes@[i].next@;
                    assert(node_transitions_ok(*g, items, nx, ks_before));
                    assert forall|p: int| 0 <= p < nx.len() implies (#[trigger] nx[p]).1 < ks.len() by {
                        assert(nx[p].1 < ks_before.len());
                    }
                    assert forall|p: int, it2: LR0Item|
                        0 <= p < nx.len() implies (#[trigger] ks[nx[p].1 as int].contains(it2) <==> goto_has(*g, items, nx[p].0, it2)) by {
                        assert(ks[nx[p].1 as int] == ks_before[nx[p].1 as int]);
                        assert(ks_before[nx[p].1 as int].contains(it2) <==> goto_has(*g, items, nx[p].0, it2));
                    }
                }
                assert(node_transitions_ok(*g, set.items@, next@, ks)) by {
                    assert forall|p: int, q: int| 0 <= p < q < next@.len() implies next@[p].0 != next@[q].0 by {
                        assert(next@[p].0 == succ@[p].0);
                        assert(next@[q].0 == succ@[q].0);
                    }
                    assert forall|p: int, it2: LR0Item|
                        0 <= p < next@.len() implies (#[trigger] ks[next@[p].1 as int].contains(it2) <==> goto_has(
                        *g,
                        set.items@,
                        next@[p].0,
                        it2,
                    )) by {
                        assert(seq_set_eq(kernels@[next@[p].1 as int]@, succ@[p].1.items@));
                        assert(succ@[p].1.items@.contains(it2) <==> goto_has(*g, set.items@, succ@[p].0, it2));
                        if ks[next@[p].1 as int].contains(it2) {
                            assert(kernels@[next@[p].1 as int]@.contains(it2));
                        }
                        if succ@[p].1.items@.contains(it2) {
                            assert(kernels@[next@[p].1 as int]@.contains(it2));
                        }
                    }
                    assert forall|it: LR0Item|
                        #[trigger] set.items@.contains(it) && next_elem(*g, it) is Some implies exists|p: int|
                            0 <= p < next@.len() && next@[p].0 == next_elem(*g, it)->0 by {
                        let p = choose|p: int| 0 <= p < succ@.len() && succ@[p].0 == next_elem(*g, it)->0;
                        assert(next@[p].0 == succ@[p].0);
                    }
                }
            }
            let ghost kernel_idx = kernels@[idx as int]@;
            let node = LR0DFANode { id: idx, kernel: copy_items(&kernels[idx]), itemset: set, next };
            let ghost old_nodes = nodes@;
            nodes.push(node);
            proof {
                let ks = Seq::new(kernels@.len(), |q: int| kernels@[q]@);
                assert(nodes@[idx as int] == node);
                assert forall|i: int| 0 <= i < idx + 1 implies node_transitions_ok(*g, (#[trigger] nodes@[i]).itemset.items@, nodes@[i].next@, ks) by {
                    if i < idx {
                        assert(nodes@[i] == old_nodes[i]);
                    }
                }
                assert forall|e: int| 0 <= e < edges@.len() implies {
                    let (from, to, x) = #[trigger] edges@[e];
                    from < idx + 1 && nodes@[from as int].next@.contains((x, to))
                } by {
                    let (from, to, x) = edges@[e];
                    if from < idx {
                        assert(nodes@[from as int] == old_nodes[from as int]);
                    }
                }
                assert forall|i: int, b: int| 0 <= i < idx + 1 && 0 <= b < nodes@[i].next@.len() implies #[trigger] edges@.contains(
                    (i as usize, nodes@[i].next@[b].1, nodes@[i].next@[b].0),
                ) by {
                    if i < idx {
                        assert(nodes@[i] == old_nodes[i]);
                    }
                }
            }
            let kl = kernels.len();
            assert(kl == kernels@.len());
            idx = idx + 1;
        }
        let res = LR0DFA { nodes, edges };
        proof {
            let ks = Seq::new(kernels@.len(), |q: int| kernels@[q]@);
            assert(res.kernels() =~= ks);
            assert(res.nodes@[0].kernel@ == seq![item_from(*g, top as int)]);
            assert(res.kernels()[0] == seq![item_from(*g, top as int)]);
            assert forall|i: int| 0 <= i < res.nodes@.len() implies node_transitions_ok(*g, #[trigger] res.item_sets()[i], res.nexts()[i], res.kernels()) by {
                assert(node_transitions_ok(*g, res.nodes@[i].itemset.items@, res.nodes@[i].next@, ks));
            }
            assert forall|i: int| 0 <= i < res.nodes@.len() implies is_closure0(*g, #[trigger] res.kernels()[i], res.item_sets()[i]) by {
                assert(is_closure0(*g, kernels@[i]@, res.nodes@[i].itemset.items@));
            }
            assert forall|i: int| 0 <= i < res.nodes@.len() implies all_valid(*g, #[trigger] res.item_sets()[i]) by {
                assert(all_valid(*g, res.nodes@[i].itemset.items@));
            }
            assert forall|i: int| 0 <= i < res.nodes@.len() implies all_valid(*g, #[trigger] res.kernels()[i]) by {
                assert(all_valid(*g, kernels@[i]@));
            }
            assert forall|i: int, j: int| 0 <= i < j < res.nodes@.len() implies !seq_set_eq(#[trigger] res.kernels()[i], #[trigger] res.kernels()[j]) by {
                assert(!seq_set_eq(kernels@[i]@, kernels@[j]@));
            }
            assert forall|e: int| 0 <= e < res.edges@.len() implies {
                let (from, to, x) = #[trigger] res.edges@[e];
                from < res.nodes@.len() && res.nexts()[from as int].contains((x, to))
            } by {
                let (from, to, x) = res.edges@[e];
                assert(res.nexts()[from as int] == res.nodes@[from as int].next@);
            }
            assert forall|i: int, a: int| 0 <= i < res.nodes@.len() && 0 <= a < res.nexts()[i].len() implies #[trigger] res.edges@.contains(
                (i as usize, res.nexts()[i][a].1, res.nexts()[i][a].0)) by {
                assert(res.nexts()[i] == res.nodes@[i].next@);
            }
        }
        res
    }
}

/// The transitions of an LR(0) automaton of `g` lead between its states and
/// are labelled with symbols of `g`.
pub proof fn lemma_lr0_edges_valid(
    g: RuleSet,
    ks: Seq<Seq<LR0Item>>,
    items: Seq<Seq<LR0Item>>,
    nexts: Seq<Seq<(RuleElem, usize)>>,
    edges: Seq<(usize, usize, RuleElem)>,
)
    requires
        g.wf(),
        lr0_automaton(g, ks, items, nexts, edges),
    ensures
        edges_valid(edges, ks.len(), g.nt(), g.nn()),
{
    assert forall|e: int| 0 <= e < edges.len() implies {
        let (from, to, x) = #[trigger] edges[e];
        from < ks.len() && to < ks.len() && match x {
            RuleElem::Term(t) => t < g.nt(),
            RuleElem::NonTerm(m) => m < g.nn(),
            _ => true,
        }
    } by {
        let (from, to, x) = edges[e];
        let nx = nexts[from as int];
        assert(nx.contains((x, to)));
        let a = choose|a: int| 0 <= a < nx.len() && nx[a] == (x, to);
        assert(node_transitions_ok(g, items[from as int], nx, ks));
        assert(nx[a].1 < ks.len());
        assert(ks[nx[a].1 as int].len() > 0);
        let it2 = ks[to as int][0];
        assert(ks[to as int].contains(it2));
        assert(goto_has(g, items[from as int], x, it2));
        let prev = LR0Item { rule: it2.rule, dot_pos: (it2.dot_pos - 1) as usize };
        let j = choose|j: int| 0 <= j < items[from as int].len() && items[from as int][j] == prev;
        assert(all_valid(g, items[from as int]));
        assert(item_valid(g, items[from as int][j]));
        assert(g.rule_wf(prev.rule as int));
        assert(g.rules@[prev.rule as int].rhs@[prev.dot_pos as int].valid_in(g.nt(), g.nn()));
    }
}

/// Copies a list of items.
pub fn copy_items(v: &Vec<LR0Item>) -> (res: Vec<LR0Item>)
    ensures
        res@ == v@,
{
    let mut res: Vec<LR0Item> = Vec::new();
    let mut i: usize = 0;
    while i < v.len()
        invariant
            i <= v@.len(),
            res@ == v@.subrange(0, i as int),
        decreases v@.len() - i,
    {
        res.push(v[i]);
        i = i + 1;
    }
    res
}

/// The index of the kernel in `kernels` that holds the same items as `k`,
/// after adding `k` at the end when there is none.
fn find_or_add_kernel(kernels: &mut Vec<Vec<LR0Item>>, k: &Vec<LR0Item>) -> (j: usize)
    ensures
        j < final(kernels)@.len(),
        seq_set_eq(final(kernels)@[j as int]@, k@),
        final(kernels)@.len() == old(kernels)@.len() || final(kernels)@.len() == old(kernels)@.len() + 1,
        forall|q: int| 0 <= q < old(kernels)@.len() ==> (#[trigger] final(kernels)@[q]) == old(kernels)@[q],
        final(kernels)@.len() == old(kernels)@.len() + 1 ==> j == old(kernels)@.len() && final(kernels)@[j as int]@ == k@
            && forall|q: int| 0 <= q < old(kernels)@.len() ==> !seq_set_eq(#[trigger] old(kernels)@[q]@, k@),
{
    let mut q: usize = 0;
    while q < kernels.len()
        invariant
            q <= kernels@.len(),
            kernels@ == old(kernels)@,
            forall|p: int| 0 <= p < q ==> !seq_set_eq(#[trigger] kernels@[p]@, k@),
        decreases kernels@.len() - q,
    {
        if same_set(&kernels[q], k) {
            return q;
        }
        q = q + 1;
    }
    kernels.push(copy_items(k));
    proof {
        assert(seq_set_eq(k@, k@));
    }
    q
}

} // verus!
