//! LR(0) items and item sets: closure and the successor (goto) sets.
use vstd::prelude::*;
use crate::grammar::{RuleElem, RuleSet};
use crate::bitset::{count_false, row_le, row_grew, lemma_count_false_mono};

verus! {

/// An LR(0) item: rule `rule` with the dot before position `dot_pos` of its
/// right side.
#[derive(Clone, Copy, PartialEq, Eq, Structural, Debug, Hash)]
pub struct LR0Item {
    pub rule: usize,
    pub dot_pos: usize,
}

/// The item refers to a rule of `g`, with the dot inside its right side.
pub open spec fn item_valid(g: RuleSet, it: LR0Item) -> bool {
    &&& it.rule < g.rules@.len()
    &&& it.dot_pos <= g.rules@[it.rule as int].rhs@.len()
}

/// The initial item of rule `r`: the dot at the start, or after `Epsilon`
/// when the right side begins with it.
pub open spec fn item_from(g: RuleSet, r: int) -> LR0Item {
    if g.rules@[r].rhs@[0] == RuleElem::Epsilon {
        LR0Item { rule: r as usize, dot_pos: 1 }
    } else {
        LR0Item { rule: r as usize, dot_pos: 0 }
    }
}

/// The symbol after the dot, if any.
pub open spec fn next_elem(g: RuleSet, it: LR0Item) -> Option<RuleElem> {
    if it.dot_pos < g.rules@[it.rule as int].rhs@.len() {
        Some(g.rules@[it.rule as int].rhs@[it.dot_pos as int])
    } else {
        None
    }
}

/// The item with the dot moved one symbol on.
pub open spec fn advance(it: LR0Item) -> LR0Item {
    LR0Item { rule: it.rule, dot_pos: (it.dot_pos + 1) as usize }
}

pub open spec fn seq_subset<A>(a: Seq<A>, b: Seq<A>) -> bool {
    forall|x: A| #[trigger] a.contains(x) ==> b.contains(x)
}

pub open spec fn seq_set_eq<A>(a: Seq<A>, b: Seq<A>) -> bool {
    seq_subset(a, b) && seq_subset(b, a)
}

pub proof fn lemma_push_subset<A>(s: Seq<A>, v: A)
    ensures
        seq_subset(s, s.push(v)),
        s.push(v).contains(v),
{
    assert forall|x: A| #[trigger] s.contains(x) implies s.push(v).contains(x) by {
        let j = choose|j: int| 0 <= j < s.len() && s[j] == x;
        assert(s.push(v)[j] == x);
    }
    assert(s.push(v)[s.len() as int] == v);
}

/// The item `it` has been expanded in `s`: when the dot stands before a
/// nonterminal, the initial items of all its rules are in `s`.
pub open spec fn expanded_in(g: RuleSet, s: Seq<LR0Item>, it: LR0Item) -> bool {
    forall|r: int|
        0 <= r < g.rules@.len() && next_elem(g, it) == Some(RuleElem::NonTerm(g.rules@[r].lhs))
            ==> #[trigger] s.contains(item_from(g, r))
}

/// `s` is closed under prediction.
pub open spec fn closed0(g: RuleSet, s: Seq<LR0Item>) -> bool {
    forall|it: LR0Item| #[trigger] s.contains(it) ==> expanded_in(g, s, it)
}

/// `s` is the closure of `k`: the least superset of `k` closed under
/// prediction.
pub open spec fn is_closure0(g: RuleSet, k: Seq<LR0Item>, s: Seq<LR0Item>) -> bool {
    &&& seq_subset(k, s)
    &&& closed0(g, s)
    &&& forall|t: Seq<LR0Item>| #![trigger closed0(g, t)] seq_subset(k, t) && closed0(g, t) ==> seq_subset(s, t)
}

/// Item `it2` is in the successor of `s` over `x`: it is an item of `s`
/// with the dot moved over `x`.
pub open spec fn goto_has(g: RuleSet, s: Seq<LR0Item>, x: RuleElem, it2: LR0Item) -> bool {
    &&& it2.dot_pos > 0
    &&& s.contains(LR0Item { rule: it2.rule, dot_pos: (it2.dot_pos - 1) as usize })
    &&& next_elem(g, LR0Item { rule: it2.rule, dot_pos: (it2.dot_pos - 1) as usize }) == Some(x)
}

/// Every item of `s` is valid in `g`.
pub open spec fn all_valid(g: RuleSet, s: Seq<LR0Item>) -> bool {
    forall|j: int| 0 <= j < s.len() ==> item_valid(g, #[trigger] s[j])
}

/// Which initial items are already in `s`.
pub open spec fn present_row(g: RuleSet, s: Seq<LR0Item>) -> Seq<bool> {
    Seq::new(g.rules@.len(), |r: int| s.contains(item_from(g, r)))
}

impl LR0Item {
    /// The initial item of rule `rule`.
    pub fn from(ruleset: &RuleSet, rule: usize) -> (res: LR0Item)
        requires
            ruleset.wf(),
            rule < ruleset.rules@.len(),
        ensures
            res == item_from(*ruleset, rule as int),
            item_valid(*ruleset, res),
    {
        assert(ruleset.rule_wf(rule as int));
        if ruleset.rules[rule].rhs[0] == RuleElem::Epsilon {
            LR0Item { rule, dot_pos: 1 }
        } else {
            LR0Item { rule, dot_pos: 0 }
        }
    }

    /// The item with the dot moved one symbol on.
    pub fn gen_next(&self, ruleset: &RuleSet) -> (res: LR0Item)
        requires
            item_valid(*ruleset, *self),
            self.dot_pos + 1 <= ruleset.rules@[self.rule as int].rhs@.len(),
        ensures
            res == advance(*self),
            res.rule == self.rule,
            res.dot_pos == self.dot_pos + 1,
            item_valid(*ruleset, res),
    {
        let n = ruleset.rules[self.rule].rhs.len();
        assert(self.dot_pos + 1 <= n);
        LR0Item { rule: self.rule, dot_pos: self.dot_pos + 1 }
    }

    /// The symbol after the dot, if any.
    pub fn check_next_elem(&self, ruleset: &RuleSet) -> (res: Option<RuleElem>)
        requires
            item_valid(*ruleset, *self),
        ensures
            res == next_elem(*ruleset, *self),
    {
        let rhs = &ruleset.rules[self.rule].rhs;
        if self.dot_pos < rhs.len() {
            Some(rhs[self.dot_pos])
        } else {
            None
        }
    }
}

/// Whether `v` holds `x`.
pub fn vec_contains(v: &Vec<LR0Item>, x: LR0Item) -> (res: bool)
    ensures
        res == v@.contains(x),
{
    let mut i: usize = 0;
    while i < v.len()
        invariant
            i <= v@.len(),
            forall|j: int| 0 <= j < i ==> v@[j] != x,
        decreases v@.len() - i,
    {
        if v[i] == x {
            assert(v@[i as int] == x);
            return true;
        }
        i = i + 1;
    }
    false
}

/// Whether `a` and `b` hold the same elements.
pub fn same_set(a: &Vec<LR0Item>, b: &Vec<LR0Item>) -> (res: bool)
    ensures
        res == seq_set_eq(a@, b@),
{
    let mut i: usize = 0;
    while i < a.len()
        invariant
            i <= a@.len(),
            forall|j: int| 0 <= j < i ==> b@.contains(#[trigger] a@[j]),
        decreases a@.len() - i,
    {
        if !vec_contains(b, a[i]) {
            assert(a@.contains(a@[i as int]));
            return false;
        }
        i = i + 1;
    }
    let mut i: usize = 0;
    while i < b.len()
        invariant
            i <= b@.len(),
            forall|j: int| 0 <= j < a@.len() ==> b@.contains(#[trigger] a@[j]),
            forall|j: int| 0 <= j < i ==> a@.contains(#[trigger] b@[j]),
        decreases b@.len() - i,
    {
        if !vec_contains(a, b[i]) {
            assert(b@.contains(b@[i as int]));
            return false;
        }
        i = i + 1;
    }
    assert forall|x: LR0Item| #[trigger] a@.contains(x) implies b@.contains(x) by {
        let j = choose|j: int| 0 <= j < a@.len() && a@[j] == x;
        assert(b@.contains(a@[j]));
    }
    assert forall|x: LR0Item| #[trigger] b@.contains(x) implies a@.contains(x) by {
        let j = choose|j: int| 0 <= j < b@.len() && b@[j] == x;
        assert(a@.contains(b@[j]));
    }
    true
}

/// A set of LR(0) items of a grammar.
pub struct LR0ItemSet<'a> {
    pub items: Vec<LR0Item>,
    pub ruleset: &'a RuleSet,
}

impl<'a> LR0ItemSet<'a> {
    /// The empty item set of a grammar.
    pub fn from(ruleset: &'a RuleSet) -> (res: LR0ItemSet<'a>)
        ensures
            res.items@.len() == 0,
            res.ruleset == ruleset,
    {
        LR0ItemSet { items: Vec::new(), ruleset }
    }

    /// Adds the initial item of rule `rule`, unless it is there already.
    pub fn init(self, rule: usize) -> (res: LR0ItemSet<'a>)
        requires
            self.ruleset.wf(),
            rule < self.ruleset.rules@.len(),
        ensures
            res.ruleset == self.ruleset,
            self.items@.contains(item_from(*self.ruleset, rule as int)) ==> res.items@ == self.items@,
            !self.items@.contains(item_from(*self.ruleset, rule as int)) ==> res.items@ == self.items@.push(
                item_from(*self.ruleset, rule as int),
            ),
    {
        let mut s = self;
        let new_item = LR0Item::from(s.ruleset, rule);
        if !vec_contains(&s.items, new_item) {
            s.items.push(new_item);
        }
        s
    }

    /// Closes the set under prediction.
    pub fn expand(&mut self)
        requires
            old(self).ruleset.wf(),
            all_valid(*old(self).ruleset, old(self).items@),
        ensures
            final(self).ruleset == old(self).ruleset,
            all_valid(*final(self).ruleset, final(self).items@),
            is_closure0(*final(self).ruleset, old(self).items@, final(self).items@),
            old(self).items@.no_duplicates() ==> final(self).items@.no_duplicates(),
            old(self).items@.is_prefix_of(final(self).items@),
    {
        let g = self.ruleset;
        let ghost k0 = self.items@;
        let nrules = g.rules.len();
        let mut i: usize = 0;
        while i < self.items.len()
            invariant
                self.ruleset == g,
                g.wf(),
                nrules == g.rules@.len(),
                i <= self.items@.len(),
                all_valid(*g, self.items@),
                seq_subset(k0, self.items@),
                k0.is_prefix_of(self.items@),
                k0.no_duplicates() ==> self.items@.no_duplicates(),
                forall|j: int| 0 <= j < i ==> expanded_in(*g, self.items@, #[trigger] self.items@[j]),
                forall|t: Seq<LR0Item>|
                    #![trigger closed0(*g, t)]
                    seq_subset(k0, t) && closed0(*g, t) ==> seq_subset(self.items@, t),
            decreases count_false(present_row(*g, self.items@)), self.items@.len() - i,
        {
            let it = self.items[i];
            let ghost s_start = self.items@;
            let next = it.check_next_elem(g);
            match next {
                Some(RuleElem::NonTerm(n)) => {
                    let mut r: usize = 0;
                    while r < nrules
                        invariant
                            self.ruleset == g,
                            g.wf(),
                            nrules == g.rules@.len(),
                            i < self.items@.len(),
                            self.items@[i as int] == it,
                            next_elem(*g, it) == Some(RuleElem::NonTerm(n)),
                            r <= nrules,
                            all_valid(*g, self.items@),
                            seq_subset(k0, self.items@),
                k0.is_prefix_of(self.items@),
                            seq_subset(s_start, self.items@),
                            s_start.len() <= self.items@.len(),
                            forall|j: int| 0 <= j < s_start.len() ==> self.items@[j] == s_start[j],
                            k0.no_duplicates() ==> self.items@.no_duplicates(),
                            row_le(present_row(*g, s_start), present_row(*g, self.items@)),
                            self.items@ != s_start ==> row_grew(present_row(*g, s_start), present_row(*g, self.items@)),
                            forall|q: int|
                                0 <= q < r && g.rules@[q].lhs == n ==> #[trigger] self.items@.contains(item_from(*g, q)),
                            forall|t: Seq<LR0Item>|
                                #![trigger closed0(*g, t)]
                                seq_subset(k0, t) && closed0(*g, t) ==> seq_subset(self.items@, t),
                        decreases nrules - r,
                    {
                        if g.rules[r].lhs == n {
                            let cand = LR0Item::from(g, r);
                            if !vec_contains(&self.items, cand) {
                                let ghost before = self.items@;
                                self.items.push(cand);
                                proof {
                                    lemma_push_subset(before, cand);
                                    assert forall|t: Seq<LR0Item>|
                                        #![trigger closed0(*g, t)]
                                        seq_subset(k0, t) && closed0(*g, t) implies seq_subset(self.items@, t) by {
                                        assert(seq_subset(before, t));
                                        assert(before.contains(it)) by {
                                            assert(before[i as int] == it);
                                        }
                                        assert(t.contains(it));
                                        assert(expanded_in(*g, t, it));
                                        assert(t.contains(item_from(*g, r as int)));
                                        assert forall|x: LR0Item| #[trigger] self.items@.contains(x) implies t.contains(x) by {
                                            let j = choose|j: int| 0 <= j < self.items@.len() && self.items@[j] == x;
                                            if j < before.len() {
                                                assert(before[j] == x);
                                                assert(before.contains(x));
                                            }
                                        }
                                    }
                                    assert(row_le(present_row(*g, before), present_row(*g, self.items@))) by {
                                        assert forall|q: int|
                                            0 <= q < present_row(*g, before).len() && #[trigger] present_row(
                                                *g,
                                                before,
                                            )[q] implies present_row(*g, self.items@)[q] by {
                                            assert(before.contains(item_from(*g, q)));
                                        }
                                    }
                                    assert(!present_row(*g, before)[r as int]);
                                    assert(present_row(*g, self.items@)[r as int]);
                                    assert(row_le(present_row(*g, s_start), present_row(*g, self.items@))) by {
                                        assert forall|q: int|
                                            0 <= q < present_row(*g, s_start).len() && #[trigger] present_row(
                                                *g,
                                                s_start,
                                            )[q] implies present_row(*g, self.items@)[q] by {
                                            assert(present_row(*g, before)[q]);
                                        }
                                    }
                                    if before == s_start {
                                        assert(!present_row(*g, s_start)[r as int]);
                                    } else {
                                        let q0 = choose|q0: int|
                                            0 <= q0 < present_row(*g, s_start).len() && !present_row(*g, s_start)[q0]
                                                && #[trigger] present_row(*g, before)[q0];
                                        assert(present_row(*g, self.items@)[q0]);
                                    }
                                    assert(self.items@.len() == before.len() + 1);
                                    if k0.no_duplicates() {
                                        assert forall|a: int, b: int|
                                            0 <= a < self.items@.len() && 0 <= b < self.items@.len() && a != b implies self.items@[a]
                                            != self.items@[b] by {
                                            if a < before.len() && b < before.len() {
                                                assert(before[a] != before[b]);
                                            } else if a == before.len() {
                                                assert(before.contains(before[b]));
                                            } else {
                                                assert(before.contains(before[a]));
                                            }
                                        }
                                    }
                                    assert(seq_subset(k0, self.items@)) by {
                                        assert forall|x: LR0Item| #[trigger] k0.contains(x) implies self.items@.contains(x) by {
                                            assert(before.contains(x));
                                        }
                                    }
                                    assert(seq_subset(s_start, self.items@)) by {
                                        assert forall|x: LR0Item| #[trigger] s_start.contains(x) implies self.items@.contains(x) by {
                                            assert(before.contains(x));
                                        }
                                    }
                                    assert forall|q: int|
                                        0 <= q < r + 1 && g.rules@[q].lhs == n implies #[trigger] self.items@.contains(
                                        item_from(*g, q),
                                    ) by {
                                        if q < r {
                                            assert(before.contains(item_from(*g, q)));
                                        }
                                    }
                                }
                            }
                        }
                        r = r + 1;
                    }
                },
                _ => {},
            }
            proof {
                assert forall|j: int| 0 <= j < i + 1 implies expanded_in(*g, self.items@, #[trigger] self.items@[j]) by {
                    assert(self.items@[j] == s_start[j]);
                    if j < i {
                        assert(expanded_in(*g, s_start, s_start[j]));
                        assert forall|r: int|
                            0 <= r < g.rules@.len() && next_elem(*g, s_start[j]) == Some(RuleElem::NonTerm(g.rules@[r].lhs))
                                implies #[trigger] self.items@.contains(item_from(*g, r)) by {
                            assert(s_start.contains(item_from(*g, r)));
                        }
                    }
                }
                if self.items@ != s_start {
                    lemma_count_false_mono(present_row(*g, s_start), present_row(*g, self.items@));
                } else {
                    assert(present_row(*g, self.items@) == present_row(*g, s_start));
                }
            }
            i = i + 1;
        }
        proof {
            assert forall|it: LR0Item| #[trigger] self.items@.contains(it) implies expanded_in(*g, self.items@, it) by {
                let j = choose|j: int| 0 <= j < self.items@.len() && self.items@[j] == it;
                assert(expanded_in(*g, self.items@, self.items@[j]));
            }
        }
    }

    /// Closes the set, then returns, for each symbol that stands after a dot
    /// in it, that symbol and the set of items with the dot moved over it.
    pub fn gen_next_sets(&mut self) -> (res: Vec<(RuleElem, LR0ItemSet<'a>)>)
        requires
            old(self).ruleset.wf(),
            all_valid(*old(self).ruleset, old(self).items@),
        ensures
            final(self).ruleset == old(self).ruleset,
            all_valid(*final(self).ruleset, final(self).items@),
            is_closure0(*final(self).ruleset, old(self).items@, final(self).items@),
            old(self).items@.no_duplicates() ==> final(self).items@.no_duplicates(),
            old(self).items@.is_prefix_of(final(self).items@),
            forall|a: int, b: int| 0 <= a < b < res@.len() ==> res@[a].0 != res@[b].0,
            forall|a: int| 0 <= a < res@.len() ==> (#[trigger] res@[a]).1.ruleset == final(self).ruleset,
            forall|a: int| 0 <= a < res@.len() ==> (#[trigger] res@[a]).1.items@.no_duplicates(),
            forall|a: int| 0 <= a < res@.len() ==> all_valid(*final(self).ruleset, (#[trigger] res@[a]).1.items@),
            forall|a: int| 0 <= a < res@.len() ==> (#[trigger] res@[a]).1.items@.len() > 0,
            forall|a: int, it2: LR0Item|
                0 <= a < res@.len() ==> (#[trigger] res@[a].1.items@.contains(it2) <==> goto_has(
                    *final(self).ruleset,
                    final(self).items@,
                    res@[a].0,
                    it2,
                )),
            forall|it: LR0Item|
                #[trigger] final(self).items@.contains(it) && next_elem(*final(self).ruleset, it) is Some
                    ==> exists|a: int| 0 <= a < res@.len() && res@[a].0 == next_elem(*final(self).ruleset, it)->0,
    {
        self.expand();
        gen_next_sets_of(self.ruleset, &self.items)
    }
}

/// The successor sets of the item set `items`, grouped by the symbol after
/// the dot, in the order in which the symbols first occur.
pub fn gen_next_sets_of<'a>(g: &'a RuleSet, items: &Vec<LR0Item>) -> (res: Vec<(RuleElem, LR0ItemSet<'a>)>)
    requires
        g.wf(),
        all_valid(*g, items@),
    ensures
        forall|a: int, b: int| 0 <= a < b < res@.len() ==> res@[a].0 != res@[b].0,
        forall|a: int| 0 <= a < res@.len() ==> (#[trigger] res@[a]).1.ruleset == g,
        forall|a: int| 0 <= a < res@.len() ==> (#[trigger] res@[a]).1.items@.no_duplicates(),
        forall|a: int| 0 <= a < res@.len() ==> all_valid(*g, (#[trigger] res@[a]).1.items@),
        forall|a: int| 0 <= a < res@.len() ==> (#[trigger] res@[a]).1.items@.len() > 0,
        forall|a: int, it2: LR0Item|
            0 <= a < res@.len() ==> (#[trigger] res@[a].1.items@.contains(it2) <==> goto_has(
                *g,
                items@,
                res@[a].0,
                it2,
            )),
        forall|it: LR0Item|
            #[trigger] items@.contains(it) && next_elem(*g, it) is Some ==> exists|a: int|
                0 <= a < res@.len() && res@[a].0 == next_elem(*g, it)->0,
{
    let mut res: Vec<(RuleElem, LR0ItemSet<'a>)> = Vec::new();
    let mut i: usize = 0;
    while i < items.len()
        invariant
            g.wf(),
            all_valid(*g, items@),
            i <= items@.len(),
            forall|a: int, b: int| 0 <= a < b < res@.len() ==> res@[a].0 != res@[b].0,
            forall|a: int| 0 <= a < res@.len() ==> (#[trigger] res@[a]).1.ruleset == g,
            forall|a: int| 0 <= a < res@.len() ==> (#[trigger] res@[a]).1.items@.no_duplicates(),
            forall|a: int| 0 <= a < res@.len() ==> all_valid(*g, (#[trigger] res@[a]).1.items@),
            forall|a: int| 0 <= a < res@.len() ==> (#[trigger] res@[a]).1.items@.len() > 0,
            forall|a: int, it2: LR0Item|
                0 <= a < res@.len() ==> (#[trigger] res@[a].1.items@.contains(it2) <==> goto_has(
                    *g,
                    items@.subrange(0, i as int),
                    res@[a].0,
                    it2,
                )),
            forall|j: int|
                0 <= j < i && next_elem(*g, #[trigger] items@[j]) is Some ==> exists|a: int|
                    0 <= a < res@.len() && res@[a].0 == next_elem(*g, items@[j])->0,
        decreases items@.len() - i,
    {
        let it = items[i];
        let ghost pre = items@.subrange(0, i as int);
        let ghost post = items@.subrange(0, i + 1);
        assert(post == pre.push(it));
        match it.check_next_elem(g) {
            Some(x) => {
                let nitem = it.gen_next(g);
                let mut a: usize = 0;
                while a < res.len()
                    invariant
                        a <= res@.len(),
                        forall|b: int| 0 <= b < a ==> res@[b].0 != x,
                    ensures
                        a <= res@.len(),
                        forall|b: int| 0 <= b < a ==> res@[b].0 != x,
                        a < res@.len() ==> res@[a as int].0 == x,
                    decreases res@.len() - a,
                {
                    if res[a].0 == x {
                        break;
                    }
                    a = a + 1;
                }
                let found = a < res.len();
                let ghost old_res = res@;
                if found {
                    let mut entry = res.remove(a);
                    if !vec_contains(&entry.1.items, nitem) {
                        entry.1.items.push(nitem);
                    }
                    res.insert(a, entry);
                    proof {
                        assert(res@ =~= old_res.update(a as int, entry));
                        assert(entry.0 == x);
                        assert forall|p: int, q: int| 0 <= p < q < res@.len() implies res@[p].0 != res@[q].0 by {
                            assert(res@[p].0 == old_res[p].0);
                            assert(res@[q].0 == old_res[q].0);
                        }
                        assert forall|it2: LR0Item| #[trigger] entry.1.items@.contains(it2) <==> goto_has(
                            *g,
                            post,
                            x,
                            it2,
                        ) by {
                            if it2 == nitem {
                                assert(post.contains(it)) by { assert(post[i as int] == it); }
                                assert(LR0Item { rule: nitem.rule, dot_pos: (nitem.dot_pos - 1) as usize } == it);
                                assert(goto_has(*g, post, x, it2));
                                assert(entry.1.items@.contains(nitem)) by {
                                    if !old_res[a as int].1.items@.contains(nitem) {
                                        assert(entry.1.items@[entry.1.items@.len() - 1] == nitem);
                                    } else {
                                        let q = choose|q: int| 0 <= q < old_res[a as int].1.items@.len() && old_res[a as int].1.items@[q] == nitem;
                                        assert(entry.1.items@[q] == nitem);
                                    }
                                }
                            } else {
                                assert(entry.1.items@.contains(it2) <==> old_res[a as int].1.items@.contains(it2)) by {
                                    if entry.1.items@.contains(it2) {
                                        let q = choose|q: int| 0 <= q < entry.1.items@.len() && entry.1.items@[q] == it2;
                                        assert(q < old_res[a as int].1.items@.len());
                                        assert(old_res[a as int].1.items@[q] == it2);
                                    }
                                    if old_res[a as int].1.items@.contains(it2) {
                                        let q = choose|q: int| 0 <= q < old_res[a as int].1.items@.len() && old_res[a as int].1.items@[q] == it2;
                                        assert(entry.1.items@[q] == it2);
                                    }
                                }
                                let prev = LR0Item { rule: it2.rule, dot_pos: (it2.dot_pos - 1) as usize };
                                if it2.dot_pos > 0 && post.contains(prev) && !pre.contains(prev) {
                                    let q = choose|q: int| 0 <= q < post.len() && post[q] == prev;
                                    if q < pre.len() {
                                        assert(pre[q] == prev);
                                    }
                                    assert(prev == it);
                                }
                                if pre.contains(prev) {
                                    let q = choose|q: int| 0 <= q < pre.len() && pre[q] == prev;
                                    assert(post[q] == prev);
                                }
                            }
                        }
                        assert forall|b: int, it2: LR0Item|
                            0 <= b < res@.len() && b != a implies (#[trigger] res@[b].1.items@.contains(it2) <==> goto_has(
                            *g,
                            post,
                            res@[b].0,
                            it2,
                        )) by {
                            assert(res@[b] == old_res[b]);
                            let prev = LR0Item { rule: it2.rule, dot_pos: (it2.dot_pos - 1) as usize };
                            if pre.contains(prev) {
                                let q = choose|q: int| 0 <= q < pre.len() && pre[q] == prev;
                                assert(post[q] == prev);
                            }
                            if it2.dot_pos > 0 && post.contains(prev) && !pre.contains(prev) {
                                let q = choose|q: int| 0 <= q < post.len() && post[q] == prev;
                                if q < pre.len() {
                                    assert(pre[q] == prev);
                                }
                                assert(prev == it);
                            }
                        }
                        if !old_res[a as int].1.items@.contains(nitem) {
                            assert forall|p: int, q: int|
                                0 <= p < entry.1.items@.len() && 0 <= q < entry.1.items@.len() && p != q implies entry.1.items@[p]
                                != entry.1.items@[q] by {
                                let olds = old_res[a as int].1.items@;
                                if p < olds.len() && q < olds.len() {
                                    assert(olds[p] != olds[q]);
                                } else if p == olds.len() {
                                    assert(olds.contains(olds[q]));
                                } else {
                                    assert(olds.contains(olds[p]));
                                }
                            }
                        }
                        assert(all_valid(*g, entry.1.items@));
                    }
                } else {
                    let mut v: Vec<LR0Item> = Vec::new();
                    v.push(nitem);
                    let entry = (x, LR0ItemSet { items: v, ruleset: g });
                    res.push(entry);
                    proof {
                        assert(res@ == old_res.push(entry));
                        assert(a == old_res.len());
                        assert forall|p: int, q: int| 0 <= p < q < res@.len() implies res@[p].0 != res@[q].0 by {
                            if q == old_res.len() {
                                assert(old_res[p].0 != x);
                            }
                        }
                        assert(entry.1.items@ == seq![nitem]);
                        assert forall|it2: LR0Item| #[trigger] entry.1.items@.contains(it2) <==> goto_has(*g, post, x, it2) by {
                            if it2 == nitem {
                                assert(post[i as int] == it);
                                assert(post.contains(it));
                                assert(entry.1.items@[0] == nitem);
                                assert(LR0Item { rule: nitem.rule, dot_pos: (nitem.dot_pos - 1) as usize } == it);
                                assert(goto_has(*g, post, x, it2));
                            } else {
                                let prev = LR0Item { rule: it2.rule, dot_pos: (it2.dot_pos - 1) as usize };
                                if goto_has(*g, post, x, it2) {
                                    if !pre.contains(prev) {
                                        let q = choose|q: int| 0 <= q < post.len() && post[q] == prev;
                                        if q < pre.len() {
                                            assert(pre[q] == prev);
                                        }
                                        assert(prev == it);
                                    } else {
                                        // an item of the prefix with `x` next would have made a group
                                        let q = choose|q: int| 0 <= q < pre.len() && pre[q] == prev;
                                        assert(items@[q] == prev);
                                        assert(next_elem(*g, items@[q]) is Some);
                                        let b = choose|b: int| 0 <= b < old_res.len() && old_res[b].0 == next_elem(*g, items@[q])->0;
                                        assert(old_res[b].0 == x);
                                        assert(false);
                                    }
                                }
                            }
                        }
                        assert forall|b: int, it2: LR0Item|
                            0 <= b < old_res.len() implies (#[trigger] res@[b].1.items@.contains(it2) <==> goto_has(
                            *g,
                            post,
                            res@[b].0,
                            it2,
                        )) by {
                            assert(res@[b] == old_res[b]);
                            let prev = LR0Item { rule: it2.rule, dot_pos: (it2.dot_pos - 1) as usize };
                            if pre.contains(prev) {
                                let q = choose|q: int| 0 <= q < pre.len() && pre[q] == prev;
                                assert(post[q] == prev);
                            }
                            if it2.dot_pos > 0 && post.contains(prev) && !pre.contains(prev) {
                                let q = choose|q: int| 0 <= q < post.len() && post[q] == prev;
                                if q < pre.len() {
                                    assert(pre[q] == prev);
                                }
                                assert(prev == it);
                                assert(old_res[b].0 != x);
                            }
                        }
                        assert(entry.1.items@.no_duplicates());
                        assert(all_valid(*g, entry.1.items@));
                    }
                }
                proof {
                    assert forall|j: int|
                        0 <= j < i + 1 && next_elem(*g, #[trigger] items@[j]) is Some implies exists|b: int|
                            0 <= b < res@.len() && res@[b].0 == next_elem(*g, items@[j])->0 by {
                        if j < i {
                            let b = choose|b: int| 0 <= b < old_res.len() && old_res[b].0 == next_elem(*g, items@[j])->0;
                            if found {
                                assert(res@[b].0 == old_res[b].0);
                            } else {
                                assert(res@[b] == old_res[b]);
                            }
                        } else {
                            if found {
                                assert(res@[a as int].0 == x);
                            } else {
                                assert(res@[old_res.len() as int].0 == x);
                            }
                        }
                    }
                }
            },
            None => {
                proof {
                    assert forall|a: int, it2: LR0Item|
                        0 <= a < res@.len() implies (#[trigger] res@[a].1.items@.contains(it2) <==> goto_has(
                        *g,
                        post,
                        res@[a].0,
                        it2,
                    )) by {
                        let prev = LR0Item { rule: it2.rule, dot_pos: (it2.dot_pos - 1) as usize };
                        if pre.contains(prev) {
                            let q = choose|q: int| 0 <= q < pre.len() && pre[q] == prev;
                            assert(post[q] == prev);
                        }
                        if it2.dot_pos > 0 && post.contains(prev) && !pre.contains(prev) {
                            let q = choose|q: int| 0 <= q < post.len() && post[q] == prev;
                            if q < pre.len() {
                                assert(pre[q] == prev);
                            }
                            assert(prev == it);
                        }
                    }
                }
            },
        }
        i = i + 1;
    }
    assert(items@.subrange(0, items@.len() as int) == items@);
    assert forall|it: LR0Item|
        #[trigger] items@.contains(it) && next_elem(*g, it) is Some implies exists|a: int|
            0 <= a < res@.len() && res@[a].0 == next_elem(*g, it)->0 by {
        let j = choose|j: int| 0 <= j < items@.len() && items@[j] == it;
        assert(next_elem(*g, items@[j]) is Some);
    }
    res
}

} // verus!
