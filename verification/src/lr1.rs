//! LR(1) items and item sets: closure with lookaheads, and the successor
//! (goto) sets.
use vstd::prelude::*;
use crate::grammar::{RuleElem, RuleSet};
use crate::lr0::{LR0Item, item_valid, next_elem, seq_subset, seq_set_eq, lemma_push_subset};
use crate::first::{FirstSet, first_table, seq_first, in_universe, index_elem};
use crate::bitset::{table_count_false, table_le, table_grew, lemma_table_count_false_mono};

verus! {

/// An LR(1) item: rule `rule` with the dot before position `dot_pos` of its
/// right side, and the lookahead `la_token`.
#[derive(Clone, Copy, PartialEq, Eq, Structural, Debug, Hash)]
pub struct LR1Item {
    pub rule: usize,
    pub dot_pos: usize,
    pub la_token: RuleElem,
}

/// The LR(0) item under an LR(1) item.
pub open spec fn core_of(it: LR1Item) -> LR0Item {
    LR0Item { rule: it.rule, dot_pos: it.dot_pos }
}

/// The item refers to a rule of `g`, with the dot inside its right side and
/// a lookahead that is a token, `Epsilon` or `EOF`.
pub open spec fn item1_valid(g: RuleSet, it: LR1Item) -> bool {
    item_valid(g, core_of(it)) && in_universe(it.la_token, g.nt())
}

/// Every item of `s` is valid in `g`.
pub open spec fn all_valid1(g: RuleSet, s: Seq<LR1Item>) -> bool {
    forall|j: int| 0 <= j < s.len() ==> item1_valid(g, #[trigger] s[j])
}

/// The initial item of rule `r` with lookahead `la`: the dot at the start;
/// for a rule whose right side begins with `Epsilon`, the dot after it and
/// the lookahead `EOF`.
pub open spec fn item_from1(g: RuleSet, r: int, la: RuleElem) -> LR1Item {
    if g.rules@[r].rhs@[0] == RuleElem::Epsilon {
        LR1Item { rule: r as usize, dot_pos: 1, la_token: RuleElem::EOF }
    } else {
        LR1Item { rule: r as usize, dot_pos: 0, la_token: la }
    }
}

/// The symbol after the dot, if any.
pub open spec fn next_elem1(g: RuleSet, it: LR1Item) -> Option<RuleElem> {
    next_elem(g, core_of(it))
}

/// The symbols after the one after the dot, then the lookahead.
pub open spec fn tail1(g: RuleSet, it: LR1Item) -> Seq<RuleElem> {
    let rhs = g.rules@[it.rule as int].rhs@;
    rhs.subrange(it.dot_pos + 1, rhs.len() as int).push(it.la_token)
}

/// The item `it` has been expanded in `s`: when the dot stands before a
/// nonterminal `A`, the initial items of all rules of `A` are in `s`, with
/// every lookahead in FIRST of the rest of `it`.
pub open spec fn expanded1(g: RuleSet, s: Seq<LR1Item>, it: LR1Item) -> bool {
    forall|r: int, k: int|
        0 <= r < g.rules@.len() && next_elem1(g, it) == Some(RuleElem::NonTerm(g.rules@[r].lhs)) && 0 <= k < g.nt()
            + 2 && seq_first(first_table(g), g.nt(), tail1(g, it), k) ==> #[trigger] s.contains(
            item_from1(g, r, index_elem(k, g.nt())),
        )
}

/// `s` is closed under prediction.
pub open spec fn closed1(g: RuleSet, s: Seq<LR1Item>) -> bool {
    forall|it: LR1Item| #[trigger] s.contains(it) ==> expanded1(g, s, it)
}

/// `s` is the closure of `k`: the least superset of `k` closed under
/// prediction.
pub open spec fn is_closure1(g: RuleSet, k: Seq<LR1Item>, s: Seq<LR1Item>) -> bool {
    &&& seq_subset(k, s)
    &&& closed1(g, s)
    &&& forall|t: Seq<LR1Item>| #![trigger closed1(g, t)] seq_subset(k, t) && closed1(g, t) ==> seq_subset(s, t)
}

/// Item `it2` is in the successor of `s` over `x`: it is an item of `s`
/// with the dot moved over `x`, and the same lookahead.
pub open spec fn goto1_has(g: RuleSet, s: Seq<LR1Item>, x: RuleElem, it2: LR1Item) -> bool {
    &&& it2.dot_pos > 0
    &&& s.contains(LR1Item { rule: it2.rule, dot_pos: (it2.dot_pos - 1) as usize, la_token: it2.la_token })
    &&& next_elem1(g, LR1Item { rule: it2.rule, dot_pos: (it2.dot_pos - 1) as usize, la_token: it2.la_token }) == Some(x)
}

/// Which initial items are already in `s`: row `r`, column `k` stands for
/// the initial item of rule `r` with lookahead `k`.
pub open spec fn present1(g: RuleSet, s: Seq<LR1Item>) -> Seq<Seq<bool>> {
    Seq::new(g.rules@.len(), |r: int| Seq::new(g.nt() + 2, |k: int| s.contains(item_from1(g, r, index_elem(k, g.nt())))))
}

/// The symbol at an index of a row.
pub fn elem_at(k: usize, nt: usize) -> (res: RuleElem)
    requires
        k < nt + 2,
    ensures
        res == index_elem(k as int, nt as nat),
        in_universe(res, nt as nat),
{
    if k < nt {
        RuleElem::Term(k)
    } else if k == nt {
        RuleElem::Epsilon
    } else {
        RuleElem::EOF
    }
}

impl LR1Item {
    /// The initial item of rule `rule` with lookahead `la_token`.
    pub fn from(ruleset: &RuleSet, rule: usize, la_token: RuleElem) -> (res: LR1Item)
        requires
            ruleset.wf(),
            rule < ruleset.rules@.len(),
            in_universe(la_token, ruleset.nt()),
        ensures
            res == item_from1(*ruleset, rule as int, la_token),
            item1_valid(*ruleset, res),
    {
        assert(ruleset.rule_wf(rule as int));
        if ruleset.rules[rule].rhs[0] == RuleElem::Epsilon {
            LR1Item { rule, dot_pos: 1, la_token: RuleElem::EOF }
        } else {
            LR1Item { rule, dot_pos: 0, la_token }
        }
    }

    /// The item with the dot moved one symbol on.
    pub fn gen_next(&self, ruleset: &RuleSet) -> (res: LR1Item)
        requires
            item1_valid(*ruleset, *self),
            self.dot_pos + 1 <= ruleset.rules@[self.rule as int].rhs@.len(),
        ensures
            res == (LR1Item { rule: self.rule, dot_pos: (self.dot_pos + 1) as usize, la_token: self.la_token }),
            res.dot_pos == self.dot_pos + 1,
            item1_valid(*ruleset, res),
    {
        let n = ruleset.rules[self.rule].rhs.len();
        assert(self.dot_pos + 1 <= n);
        LR1Item { rule: self.rule, dot_pos: self.dot_pos + 1, la_token: self.la_token }
    }

    /// The symbol after the dot, if any.
    pub fn check_next_elem(&self, ruleset: &RuleSet) -> (res: Option<RuleElem>)
        requires
            item1_valid(*ruleset, *self),
        ensures
            res == next_elem1(*ruleset, *self),
    {
        let rhs = &ruleset.rules[self.rule].rhs;
        if self.dot_pos < rhs.len() {
            Some(rhs[self.dot_pos])
        } else {
            None
        }
    }

    /// The symbols from the dot on, then the lookahead.
    pub fn check_next_elems(&self, ruleset: &RuleSet) -> (res: Vec<RuleElem>)
        requires
            item1_valid(*ruleset, *self),
        ensures
            res@ == ruleset.rules@[self.rule as int].rhs@.subrange(self.dot_pos as int, ruleset.rules@[self.rule as int].rhs@.len() as int).push(self.la_token),
    {
        let rhs = &ruleset.rules[self.rule].rhs;
        let mut res: Vec<RuleElem> = Vec::new();
        let mut j: usize = self.dot_pos;
        while j < rhs.len()
            invariant
                self.dot_pos <= j <= rhs@.len(),
                res@ == rhs@.subrange(self.dot_pos as int, j as int),
            decreases rhs@.len() - j,
        {
            res.push(rhs[j]);
            j = j + 1;
        }
        res.push(self.la_token);
        res
    }
}

/// Whether `v` holds `x`.
pub fn vec_contains1(v: &Vec<LR1Item>, x: LR1Item) -> (res: bool)
    ensures
        res == v@.contains(x),
{
    let mut i: usize = 0;
    while i < v.len()
        invariant
            i <= v@.len(),
            forall|j: int| 0 <= j < i ==> v@[j] != x,
        decreases v@.len() - i,
    {
        if v[i] == x {
            assert(v@[i as int] == x);
            return true;
        }
        i = i + 1;
    }
    false
}

/// Whether `a` and `b` hold the same elements.
pub fn same_set1(a: &Vec<LR1Item>, b: &Vec<LR1Item>) -> (res: bool)
    ensures
        res == seq_set_eq(a@, b@),
{
    let mut i: usize = 0;
    while i < a.len()
        invariant
            i <= a@.len(),
            forall|j: int| 0 <= j < i ==> b@.contains(#[trigger] a@[j]),
        decreases a@.len() - i,
    {
        if !vec_contains1(b, a[i]) {
            assert(a@.contains(a@[i as int]));
            return false;
        }
        i = i + 1;
    }
    let mut i: usize = 0;
    while i < b.len()
        invariant
            i <= b@.len(),
            forall|j: int| 0 <= j < a@.len() ==> b@.contains(#[trigger] a@[j]),
            forall|j: int| 0 <= j < i ==> a@.contains(#[trigger] b@[j]),
        decreases b@.len() - i,
    {
        if !vec_contains1(a, b[i]) {
            assert(b@.contains(b@[i as int]));
            return false;
        }
        i = i + 1;
    }
    assert forall|x: LR1Item| #[trigger] a@.contains(x) implies b@.contains(x) by {
        let j = choose|j: int| 0 <= j < a@.len() && a@[j] == x;
        assert(b@.contains(a@[j]));
    }
    assert forall|x: LR1Item| #[trigger] b@.contains(x) implies a@.contains(x) by {
        let j = choose|j: int| 0 <= j < b@.len() && b@[j] == x;
        assert(a@.contains(b@[j]));
    }
    true
}

/// Copies a list of items.
pub fn copy_items1(v: &Vec<LR1Item>) -> (res: Vec<LR1Item>)
    ensures
        res@ == v@,
{
    let mut res: Vec<LR1Item> = Vec::new();
    let mut i: usize = 0;
    while i < v.len()
        invariant
            i <= v@.len(),
            res@ == v@.subrange(0, i as int),
        decreases v@.len() - i,
    {
        res.push(v[i]);
        i = i + 1;
    }
    res
}

/// A set of LR(1) items of a grammar, with the FIRST sets of the grammar.
pub struct LR1ItemSet<'a, 'b> {
    pub items: Vec<LR1Item>,
    pub ruleset: &'a RuleSet,
    pub first_set: &'b FirstSet,
}

impl<'a, 'b> LR1ItemSet<'a, 'b> {
    /// The FIRST sets belong to the grammar.
    pub open spec fn ctx_ok(&self) -> bool {
        &&& self.ruleset.wf()
        &&& self.first_set.wf()
        &&& self.first_set.nt() == self.ruleset.nt()
        &&& self.first_set.nn() == self.ruleset.nn()
        &&& self.first_set@ == first_table(*self.ruleset)
    }

    /// The empty item set of a grammar.
    pub fn from(ruleset: &'a RuleSet, first_set: &'b FirstSet) -> (res: LR1ItemSet<'a, 'b>)
        ensures
            res.items@.len() == 0,
            res.ruleset == ruleset,
            res.first_set == first_set,
    {
        LR1ItemSet { items: Vec::new(), ruleset, first_set }
    }

    /// The set that holds the initial item of rule `rule` with lookahead
    /// `EOF`, and nothing else.
    pub fn init(self, rule: usize) -> (res: LR1ItemSet<'a, 'b>)
        requires
            self.ruleset.wf(),
            rule < self.ruleset.rules@.len(),
        ensures
            res.ruleset == self.ruleset,
            res.first_set == self.first_set,
            res.items@ == seq![item_from1(*self.ruleset, rule as int, RuleElem::EOF)],
    {
        let mut s = self;
        let mut items: Vec<LR1Item> = Vec::new();
        items.push(LR1Item::from(s.ruleset, rule, RuleElem::EOF));
        s.items = items;
        s
    }

    /// The FIRST set, as a row, of the symbols after the one after the dot
    /// of `it`, followed by its lookahead.
    fn la_row(&self, it: LR1Item) -> (row: Vec<bool>)
        requires
            self.ctx_ok(),
            item1_valid(*self.ruleset, it),
            next_elem1(*self.ruleset, it) is Some,
        ensures
            row@.len() == self.ruleset.nt() + 2,
            forall|k: int| 0 <= k < self.ruleset.nt() + 2 ==> #[trigger] row@[k] == seq_first(
                first_table(*self.ruleset),
                self.ruleset.nt(),
                tail1(*self.ruleset, it),
                k,
            ),
    {
        let g = self.ruleset;
        let rhs = &g.rules[it.rule].rhs;
        assert(g.rule_wf(it.rule as int));
        let mut tail: Vec<RuleElem> = Vec::new();
        let n = rhs.len();
        assert(it.dot_pos < n);
        let mut j: usize = it.dot_pos + 1;
        while j < rhs.len()
            invariant
                g.wf(),
                it.rule < g.rules@.len(),
                g.rule_wf(it.rule as int),
                *rhs == g.rules@[it.rule as int].rhs,
                it.dot_pos + 1 <= j <= rhs@.len(),
                tail@ == rhs@.subrange(it.dot_pos + 1, j as int),
            decreases rhs@.len() - j,
        {
            tail.push(rhs[j]);
            j = j + 1;
        }
        tail.push(it.la_token);
        assert(tail@ == tail1(*g, it));
        assert forall|q: int| 0 <= q < tail@.len() implies (#[trigger] tail@[q]).known_in(self.first_set.nt(), self.first_set.nn()) by {
            if q < tail@.len() - 1 {
                assert(tail@[q] == rhs@[it.dot_pos + 1 + q]);
                assert(rhs@[it.dot_pos + 1 + q].valid_in(g.nt(), g.nn()));
            }
        }
        self.first_set.get_by_from(tail.as_slice(), 0)
    }

    /// Closes the set under prediction.
    pub fn expand(&mut self)
        requires
            old(self).ctx_ok(),
            all_valid1(*old(self).ruleset, old(self).items@),
        ensures
            final(self).ruleset == old(self).ruleset,
            final(self).first_set == old(self).first_set,
            all_valid1(*final(self).ruleset, final(self).items@),
            is_closure1(*final(self).ruleset, old(self).items@, final(self).items@),
            old(self).items@.no_duplicates() ==> final(self).items@.no_duplicates(),
            old(self).items@.is_prefix_of(final(self).items@),
    {
        let g = self.ruleset;
        let ghost k0 = self.items@;
        let nrules = g.rules.len();
        let w = g.num_terms + 2;
        let mut i: usize = 0;
        while i < self.items.len()
            invariant
                self.ruleset == g,
                self.first_set == old(self).first_set,
                self.ctx_ok(),
                nrules == g.rules@.len(),
                w == g.nt() + 2,
                i <= self.items@.len(),
                all_valid1(*g, self.items@),
                seq_subset(k0, self.items@),
                k0.is_prefix_of(self.items@),
                k0.no_duplicates() ==> self.items@.no_duplicates(),
                forall|j: int| 0 <= j < i ==> expanded1(*g, self.items@, #[trigger] self.items@[j]),
                forall|t: Seq<LR1Item>|
                    #![trigger closed1(*g, t)]
                    seq_subset(k0, t) && closed1(*g, t) ==> seq_subset(self.items@, t),
            decreases table_count_false(present1(*g, self.items@)), self.items@.len() - i,
        {
            let it = self.items[i];
            let ghost s_start = self.items@;
            assert(item1_valid(*g, self.items@[i as int]));
            let next = it.check_next_elem(g);
            match next {
                Some(RuleElem::NonTerm(n)) => {
                    let row = self.la_row(it);
                    let mut r: usize = 0;
                    while r < nrules
                        invariant
                            self.ruleset == g,
                            self.first_set == old(self).first_set,
                            self.ctx_ok(),
                            nrules == g.rules@.len(),
                            w == g.nt() + 2,
                            row@.len() == w,
                            forall|k: int| 0 <= k < w ==> #[trigger] row@[k] == seq_first(first_table(*g), g.nt(), tail1(*g, it), k),
                            i < self.items@.len(),
                            self.items@[i as int] == it,
                            next_elem1(*g, it) == Some(RuleElem::NonTerm(n)),
                            r <= nrules,
                            all_valid1(*g, self.items@),
                            seq_subset(k0, self.items@),
                k0.is_prefix_of(self.items@),
                            seq_subset(s_start, self.items@),
                            s_start.len() <= self.items@.len(),
                            forall|j: int| 0 <= j < s_start.len() ==> self.items@[j] == s_start[j],
                            k0.no_duplicates() ==> self.items@.no_duplicates(),
                            table_le(present1(*g, s_start), present1(*g, self.items@)),
                            self.items@ != s_start ==> table_grew(present1(*g, s_start), present1(*g, self.items@)),
                            forall|q: int, k: int|
                                0 <= q < r && g.rules@[q].lhs == n && 0 <= k < w && row@[k] ==> #[trigger] self.items@.contains(
                                    item_from1(*g, q, index_elem(k, g.nt())),
                                ),
                            forall|t: Seq<LR1Item>|
                                #![trigger closed1(*g, t)]
                                seq_subset(k0, t) && closed1(*g, t) ==> seq_subset(self.items@, t),
                        decreases nrules - r,
                    {
                        if g.rules[r].lhs == n {
                            let mut k: usize = 0;
                            while k < w
                                invariant
                                    self.ruleset == g,
                                    self.first_set == old(self).first_set,
                                    self.ctx_ok(),
                                    nrules == g.rules@.len(),
                                    w == g.nt() + 2,
                                    row@.len() == w,
                                    forall|k: int| 0 <= k < w ==> #[trigger] row@[k] == seq_first(first_table(*g), g.nt(), tail1(*g, it), k),
                                    i < self.items@.len(),
                                    self.items@[i as int] == it,
                                    next_elem1(*g, it) == Some(RuleElem::NonTerm(n)),
                                    r < nrules,
                                    g.rules@[r as int].lhs == n,
                                    k <= w,
                                    all_valid1(*g, self.items@),
                                    seq_subset(k0, self.items@),
                k0.is_prefix_of(self.items@),
                                    seq_subset(s_start, self.items@),
                                    s_start.len() <= self.items@.len(),
                                    forall|j: int| 0 <= j < s_start.len() ==> self.items@[j] == s_start[j],
                                    k0.no_duplicates() ==> self.items@.no_duplicates(),
                                    table_le(present1(*g, s_start), present1(*g, self.items@)),
                                    self.items@ != s_start ==> table_grew(present1(*g, s_start), present1(*g, self.items@)),
                                    forall|q: int, kk: int|
                                        0 <= q < r && g.rules@[q].lhs == n && 0 <= kk < w && row@[kk] ==> #[trigger] self.items@.contains(
                                            item_from1(*g, q, index_elem(kk, g.nt())),
                                        ),
                                    forall|kk: int|
                                        0 <= kk < k && row@[kk] ==> #[trigger] self.items@.contains(
                                            item_from1(*g, r as int, index_elem(kk, g.nt())),
                                        ),
                                    forall|t: Seq<LR1Item>|
                                        #![trigger closed1(*g, t)]
                                        seq_subset(k0, t) && closed1(*g, t) ==> seq_subset(self.items@, t),
                                decreases w - k,
                            {
                                if row[k] {
                                    let la = elem_at(k, g.num_terms);
                                    let cand = LR1Item::from(g, r, la);
                                    if !vec_contains1(&self.items, cand) {
                                        let ghost before = self.items@;
                                        self.items.push(cand);
                                        proof {
                                            self.lemma_push_new(k0, s_start, before, it, i as int, r as int, k as int, cand);
                                            assert forall|q: int, kk: int|
                                                0 <= q < r && g.rules@[q].lhs == n && 0 <= kk < w && row@[kk] implies #[trigger] self.items@.contains(
                                                    item_from1(*g, q, index_elem(kk, g.nt())),
                                                ) by {
                                                assert(before.contains(item_from1(*g, q, index_elem(kk, g.nt()))));
                                            }
                                            assert forall|kk: int|
                                                0 <= kk < k + 1 && row@[kk] implies #[trigger] self.items@.contains(
                                                    item_from1(*g, r as int, index_elem(kk, g.nt())),
                                                ) by {
                                                if kk < k {
                                                    assert(before.contains(item_from1(*g, r as int, index_elem(kk, g.nt()))));
                                                }
                                            }
                                        }
                                    }
                                }
                                k = k + 1;
                            }
                        }
                        r = r + 1;
                    }
                },
                _ => {},
            }
            proof {
                assert forall|j: int| 0 <= j < i + 1 implies expanded1(*g, self.items@, #[trigger] self.items@[j]) by {
                    assert(self.items@[j] == s_start[j]);
                    if j < i {
                        assert(expanded1(*g, s_start, s_start[j]));
                        assert forall|r: int, k: int|
                            0 <= r < g.rules@.len() && next_elem1(*g, s_start[j]) == Some(RuleElem::NonTerm(g.rules@[r].lhs))
                                && 0 <= k < g.nt() + 2 && seq_first(first_table(*g), g.nt(), tail1(*g, s_start[j]), k)
                                implies #[trigger] self.items@.contains(item_from1(*g, r, index_elem(k, g.nt()))) by {
                            assert(s_start.contains(item_from1(*g, r, index_elem(k, g.nt()))));
                        }
                    }
                }
                if self.items@ != s_start {
                    lemma_table_count_false_mono(present1(*g, s_start), present1(*g, self.items@));
                } else {
                    assert(present1(*g, self.items@) == present1(*g, s_start));
                }
            }
            i = i + 1;
        }
        proof {
            assert forall|it: LR1Item| #[trigger] self.items@.contains(it) implies expanded1(*g, self.items@, it) by {
                let j = choose|j: int| 0 <= j < self.items@.len() && self.items@[j] == it;
                assert(expanded1(*g, self.items@, self.items@[j]));
            }
        }
    }

    /// Closes the set, then returns, for each symbol that stands after a dot
    /// in it, that symbol and the set of items with the dot moved over it.
    pub fn gen_next_sets(&mut self) -> (res: Vec<(RuleElem, LR1ItemSet<'a, 'b>)>)
        requires
            old(self).ctx_ok(),
            all_valid1(*old(self).ruleset, old(self).items@),
        ensures
            final(self).ruleset == old(self).ruleset,
            final(self).first_set == old(self).first_set,
            all_valid1(*final(self).ruleset, final(self).items@),
            is_closure1(*final(self).ruleset, old(self).items@, final(self).items@),
            old(self).items@.no_duplicates() ==> final(self).items@.no_duplicates(),
            old(self).items@.is_prefix_of(final(self).items@),
            forall|a: int, b: int| 0 <= a < b < res@.len() ==> res@[a].0 != res@[b].0,
            forall|a: int| 0 <= a < res@.len() ==> (#[trigger] res@[a]).1.ruleset == final(self).ruleset,
            forall|a: int| 0 <= a < res@.len() ==> (#[trigger] res@[a]).1.first_set == final(self).first_set,
            forall|a: int| 0 <= a < res@.len() ==> (#[trigger] res@[a]).1.items@.no_duplicates(),
            forall|a: int| 0 <= a < res@.len() ==> all_valid1(*final(self).ruleset, (#[trigger] res@[a]).1.items@),
            forall|a: int| 0 <= a < res@.len() ==> (#[trigger] res@[a]).1.items@.len() > 0,
            forall|a: int, it2: LR1Item|
                0 <= a < res@.len() ==> (#[trigger] res@[a].1.items@.contains(it2) <==> goto1_has(
                    *final(self).ruleset,
                    final(self).items@,
                    res@[a].0,
                    it2,
                )),
            forall|it: LR1Item|
                #[trigger] final(self).items@.contains(it) && next_elem1(*final(self).ruleset, it) is Some
                    ==> exists|a: int| 0 <= a < res@.len() && res@[a].0 == next_elem1(*final(self).ruleset, it)->0,
    {
        self.expand();
        let groups = gen_next_sets_of(self.ruleset, &self.items);
        let mut res: Vec<(RuleElem, LR1ItemSet<'a, 'b>)> = Vec::new();
        let mut a: usize = 0;
        while a < groups.len()
            invariant
                a <= groups@.len(),
                res@.len() == a,
                forall|p: int| 0 <= p < a ==> (#[trigger] res@[p]).0 == groups@[p].0 && res@[p].1.items@ == groups@[p].1@
                    && res@[p].1.ruleset == self.ruleset && res@[p].1.first_set == self.first_set,
            decreases groups@.len() - a,
        {
            let set = LR1ItemSet { items: copy_items1(&groups[a].1), ruleset: self.ruleset, first_set: self.first_set };
            res.push((groups[a].0, set));
            a = a + 1;
        }
        proof {
            assert forall|a: int, b: int| 0 <= a < b < res@.len() implies res@[a].0 != res@[b].0 by {
                assert(res@[a].0 == groups@[a].0);
                assert(res@[b].0 == groups@[b].0);
            }
            assert forall|it: LR1Item|
                #[trigger] self.items@.contains(it) && next_elem1(*self.ruleset, it) is Some
                    implies exists|a: int| 0 <= a < res@.len() && res@[a].0 == next_elem1(*self.ruleset, it)->0 by {
                let a = choose|a: int| 0 <= a < groups@.len() && groups@[a].0 == next_elem1(*self.ruleset, it)->0;
                assert(res@[a].0 == groups@[a].0);
            }
        }
        res
    }

    /// The facts that pushing a new initial item `cand` (rule `r`,
    /// lookahead `k`, predicted by `it`) keeps.
    proof fn lemma_push_new(
        &self,
        k0: Seq<LR1Item>,
        s_start: Seq<LR1Item>,
        before: Seq<LR1Item>,
        it: LR1Item,
        i: int,
        r: int,
        k: int,
        cand: LR1Item,
    )
        requires
            self.ruleset.wf(),
            0 <= r < self.ruleset.rules@.len(),
            0 <= k < self.ruleset.nt() + 2,
            cand == item_from1(*self.ruleset, r, index_elem(k, self.ruleset.nt())),
            item1_valid(*self.ruleset, cand),
            !before.contains(cand),
            self.items@ == before.push(cand),
            0 <= i < before.len(),
            before[i] == it,
            next_elem1(*self.ruleset, it) == Some(RuleElem::NonTerm(self.ruleset.rules@[r].lhs)),
            seq_first(first_table(*self.ruleset), self.ruleset.nt(), tail1(*self.ruleset, it), k),
            all_valid1(*self.ruleset, before),
            seq_subset(k0, before),
            k0.is_prefix_of(before),
            seq_subset(s_start, before),
            s_start.len() <= before.len(),
            forall|j: int| 0 <= j < s_start.len() ==> before[j] == s_start[j],
            k0.no_duplicates() ==> before.no_duplicates(),
            table_le(present1(*self.ruleset, s_start), present1(*self.ruleset, before)),
            before != s_start ==> table_grew(present1(*self.ruleset, s_start), present1(*self.ruleset, before)),
            forall|t: Seq<LR1Item>|
                #![trigger closed1(*self.ruleset, t)]
                seq_subset(k0, t) && closed1(*self.ruleset, t) ==> seq_subset(before, t),
        ensures
            all_valid1(*self.ruleset, self.items@),
            seq_subset(k0, self.items@),
            k0.is_prefix_of(self.items@),
            seq_subset(s_start, self.items@),
            seq_subset(before, self.items@),
            s_start.len() <= self.items@.len(),
            forall|j: int| 0 <= j < s_start.len() ==> self.items@[j] == s_start[j],
            forall|j: int| 0 <= j < before.len() ==> self.items@[j] == before[j],
            self.items@.contains(cand),
            k0.no_duplicates() ==> self.items@.no_duplicates(),
            table_le(present1(*self.ruleset, s_start), present1(*self.ruleset, self.items@)),
            table_grew(present1(*self.ruleset, s_start), present1(*self.ruleset, self.items@)),
            forall|t: Seq<LR1Item>|
                #![trigger closed1(*self.ruleset, t)]
                seq_subset(k0, t) && closed1(*self.ruleset, t) ==> seq_subset(self.items@, t),
    {
        let g = *self.ruleset;
        let s = self.items@;
        lemma_push_subset(before, cand);
        assert forall|j: int| 0 <= j < s.len() implies item1_valid(g, #[trigger] s[j]) by {
            if j < before.len() {
                assert(s[j] == before[j]);
            }
        }
        assert forall|t: Seq<LR1Item>|
            #![trigger closed1(g, t)]
            seq_subset(k0, t) && closed1(g, t) implies seq_subset(s, t) by {
            assert(seq_subset(before, t));
            assert(before.contains(it)) by {
                assert(before[i] == it);
            }
            assert(t.contains(it));
            assert(expanded1(g, t, it));
            assert(t.contains(item_from1(g, r, index_elem(k, g.nt()))));
            assert forall|x: LR1Item| #[trigger] s.contains(x) implies t.contains(x) by {
                let j = choose|j: int| 0 <= j < s.len() && s[j] == x;
                if j < before.len() {
                    assert(before[j] == x);
                    assert(before.contains(x));
                }
            }
        }
        let pb = present1(g, before);
        let ps = present1(g, s);
        let p0 = present1(g, s_start);
        assert(table_le(pb, ps)) by {
            assert forall|q: int| 0 <= q < pb.len() implies crate::bitset::row_le(#[trigger] pb[q], ps[q]) by {
                assert forall|kk: int| 0 <= kk < pb[q].len() && #[trigger] pb[q][kk] implies ps[q][kk] by {
                    assert(before.contains(item_from1(g, q, index_elem(kk, g.nt()))));
                }
            }
        }
        assert(!pb[r][k]);
        assert(ps[r][k]);
        assert(table_le(p0, ps)) by {
            assert forall|q: int| 0 <= q < p0.len() implies crate::bitset::row_le(#[trigger] p0[q], ps[q]) by {
                assert(crate::bitset::row_le(p0[q], pb[q]));
                assert(crate::bitset::row_le(pb[q], ps[q]));
                assert forall|kk: int| 0 <= kk < p0[q].len() && #[trigger] p0[q][kk] implies ps[q][kk] by {
                    assert(pb[q][kk]);
                }
            }
        }
        if before == s_start {
            assert(!p0[r][k]);
        } else {
            let (q0, k1) = choose|q0: int, k1: int|
                0 <= q0 < p0.len() && 0 <= k1 < p0[q0].len() && !p0[q0][k1] && #[trigger] pb[q0][k1];
            assert(crate::bitset::row_le(pb[q0], ps[q0]));
            assert(ps[q0][k1]);
        }
        if k0.no_duplicates() {
            assert forall|a: int, b: int| 0 <= a < s.len() && 0 <= b < s.len() && a != b implies s[a] != s[b] by {
                if a < before.len() && b < before.len() {
                    assert(before[a] != before[b]);
                } else if a == before.len() {
                    assert(before.contains(before[b]));
                } else {
                    assert(before.contains(before[a]));
                }
            }
        }
        assert(seq_subset(k0, s)) by {
            assert forall|x: LR1Item| #[trigger] k0.contains(x) implies s.contains(x) by {
                assert(before.contains(x));
            }
        }
        assert(k0.is_prefix_of(s)) by {
            assert forall|j: int| 0 <= j < k0.len() implies #[trigger] s[j] == k0[j] by {
                assert(before[j] == k0[j]);
            }
        }
        assert(seq_subset(s_start, s)) by {
            assert forall|x: LR1Item| #[trigger] s_start.contains(x) implies s.contains(x) by {
                assert(before.contains(x));
            }
        }
    }
}

/// The successor sets of the LR(1) item set `items`, grouped by the symbol after
/// the dot, in the order in which the symbols first occur.
pub fn gen_next_sets_of(g: &RuleSet, items: &Vec<LR1Item>) -> (res: Vec<(RuleElem, Vec<LR1Item>)>)
    requires
        g.wf(),
        all_valid1(*g, items@),
    ensures
        forall|a: int, b: int| 0 <= a < b < res@.len() ==> res@[a].0 != res@[b].0,
        forall|a: int| 0 <= a < res@.len() ==> (#[trigger] res@[a]).1@.no_duplicates(),
        forall|a: int| 0 <= a < res@.len() ==> all_valid1(*g, (#[trigger] res@[a]).1@),
        forall|a: int| 0 <= a < res@.len() ==> (#[trigger] res@[a]).1@.len() > 0,
        forall|a: int, it2: LR1Item|
            0 <= a < res@.len() ==> (#[trigger] res@[a].1@.contains(it2) <==> goto1_has(
                *g,
                items@,
                res@[a].0,
                it2,
            )),
        forall|it: LR1Item|
            #[trigger] items@.contains(it) && next_elem1(*g, it) is Some ==> exists|a: int|
                0 <= a < res@.len() && res@[a].0 == next_elem1(*g, it)->0,
{
    let mut res: Vec<(RuleElem, Vec<LR1Item>)> = Vec::new();
    let mut i: usize = 0;
    while i < items.len()
        invariant
            g.wf(),
            all_valid1(*g, items@),
            i <= items@.len(),
            forall|a: int, b: int| 0 <= a < b < res@.len() ==> res@[a].0 != res@[b].0,
            forall|a: int| 0 <= a < res@.len() ==> (#[trigger] res@[a]).1@.no_duplicates(),
            forall|a: int| 0 <= a < res@.len() ==> all_valid1(*g, (#[trigger] res@[a]).1@),
            forall|a: int| 0 <= a < res@.len() ==> (#[trigger] res@[a]).1@.len() > 0,
            forall|a: int, it2: LR1Item|
                0 <= a < res@.len() ==> (#[trigger] res@[a].1@.contains(it2) <==> goto1_has(
                    *g,
                    items@.subrange(0, i as int),
                    res@[a].0,
                    it2,
                )),
            forall|j: int|
                0 <= j < i && next_elem1(*g, #[trigger] items@[j]) is Some ==> exists|a: int|
                    0 <= a < res@.len() && res@[a].0 == next_elem1(*g, items@[j])->0,
        decreases items@.len() - i,
    {
        let it = items[i];
        let ghost pre = items@.subrange(0, i as int);
        let ghost post = items@.subrange(0, i + 1);
        assert(post == pre.push(it));
        match it.check_next_elem(g) {
            Some(x) => {
                let nitem = it.gen_next(g);
                let mut a: usize = 0;
                while a < res.len()
                    invariant
                        a <= res@.len(),
                        forall|b: int| 0 <= b < a ==> res@[b].0 != x,
                    ensures
                        a <= res@.len(),
                        forall|b: int| 0 <= b < a ==> res@[b].0 != x,
                        a < res@.len() ==> res@[a as int].0 == x,
                    decreases res@.len() - a,
                {
                    if res[a].0 == x {
                        break;
                    }
                    a = a + 1;
                }
                let found = a < res.len();
                let ghost old_res = res@;
                if found {
                    let mut entry = res.remove(a);
                    if !vec_contains1(&entry.1, nitem) {
                        entry.1.push(nitem);
                    }
                    res.insert(a, entry);
                    proof {
                        assert(res@ =~= old_res.update(a as int, entry));
                        assert(entry.0 == x);
                        assert forall|p: int, q: int| 0 <= p < q < res@.len() implies res@[p].0 != res@[q].0 by {
                            assert(res@[p].0 == old_res[p].0);
                            assert(res@[q].0 == old_res[q].0);
                        }
                        assert forall|it2: LR1Item| #[trigger] entry.1@.contains(it2) <==> goto1_has(
                            *g,
                            post,
                            x,
                            it2,
                        ) by {
                            if it2 == nitem {
                                assert(post.contains(it)) by { assert(post[i as int] == it); }
                                assert(LR1Item { rule: nitem.rule, dot_pos: (nitem.dot_pos - 1) as usize, la_token: nitem.la_token } == it);
                                assert(goto1_has(*g, post, x, it2));
                                assert(entry.1@.contains(nitem)) by {
                                    if !old_res[a as int].1@.contains(nitem) {
                                        assert(entry.1@[entry.1@.len() - 1] == nitem);
                                    } else {
                                        let q = choose|q: int| 0 <= q < old_res[a as int].1@.len() && old_res[a as int].1@[q] == nitem;
                                        assert(entry.1@[q] == nitem);
                                    }
                                }
                            } else {
                                assert(entry.1@.contains(it2) <==> old_res[a as int].1@.contains(it2)) by {
                                    if entry.1@.contains(it2) {
                                        let q = choose|q: int| 0 <= q < entry.1@.len() && entry.1@[q] == it2;
                                        assert(q < old_res[a as int].1@.len());
                                        assert(old_res[a as int].1@[q] == it2);
                                    }
                                    if old_res[a as int].1@.contains(it2) {
                                        let q = choose|q: int| 0 <= q < old_res[a as int].1@.len() && old_res[a as int].1@[q] == it2;
                                        assert(entry.1@[q] == it2);
                                    }
                                }
                                let prev = LR1Item { rule: it2.rule, dot_pos: (it2.dot_pos - 1) as usize, la_token: it2.la_token };
                                if it2.dot_pos > 0 && post.contains(prev) && !pre.contains(prev) {
                                    let q = choose|q: int| 0 <= q < post.len() && post[q] == prev;
                                    if q < pre.len() {
                                        assert(pre[q] == prev);
                                    }
                                    assert(prev == it);
                                }
                                if pre.contains(prev) {
                                    let q = choose|q: int| 0 <= q < pre.len() && pre[q] == prev;
                                    assert(post[q] == prev);
                                }
                            }
                        }
                        assert forall|b: int, it2: LR1Item|
                            0 <= b < res@.len() && b != a implies (#[trigger] res@[b].1@.contains(it2) <==> goto1_has(
                            *g,
                            post,
                            res@[b].0,
                            it2,
                        )) by {
                            assert(res@[b] == old_res[b]);
                            let prev = LR1Item { rule: it2.rule, dot_pos: (it2.dot_pos - 1) as usize, la_token: it2.la_token };
                            if pre.contains(prev) {
                                let q = choose|q: int| 0 <= q < pre.len() && pre[q] == prev;
                                assert(post[q] == prev);
                            }
                            if it2.dot_pos > 0 && post.contains(prev) && !pre.contains(prev) {
                                let q = choose|q: int| 0 <= q < post.len() && post[q] == prev;
                                if q < pre.len() {
                                    assert(pre[q] == prev);
                                }
                                assert(prev == it);
                            }
                        }
                        if !old_res[a as int].1@.contains(nitem) {
                            assert forall|p: int, q: int|
                                0 <= p < entry.1@.len() && 0 <= q < entry.1@.len() && p != q implies entry.1@[p]
                                != entry.1@[q] by {
                                let olds = old_res[a as int].1@;
                                if p < olds.len() && q < olds.len() {
                                    assert(olds[p] != olds[q]);
                                } else if p == olds.len() {
                                    assert(olds.contains(olds[q]));
                                } else {
                                    assert(olds.contains(olds[p]));
                                }
                            }
                        }
                        assert(all_valid1(*g, entry.1@));
                    }
                } else {
                    let mut v: Vec<LR1Item> = Vec::new();
                    v.push(nitem);
                    let entry = (x, v);
                    res.push(entry);
                    proof {
                        assert(res@ == old_res.push(entry));
                        assert(a == old_res.len());
                        assert forall|p: int, q: int| 0 <= p < q < res@.len() implies res@[p].0 != res@[q].0 by {
                            if q == old_res.len() {
                                assert(old_res[p].0 != x);
                            }
                        }
                        assert(entry.1@ == seq![nitem]);
                        assert forall|it2: LR1Item| #[trigger] entry.1@.contains(it2) <==> goto1_has(*g, post, x, it2) by {
                            if it2 == nitem {
                                assert(post[i as int] == it);
                                assert(post.contains(it));
                                assert(entry.1@[0] == nitem);
                                assert(LR1Item { rule: nitem.rule, dot_pos: (nitem.dot_pos - 1) as usize, la_token: nitem.la_token } == it);
                                assert(goto1_has(*g, post, x, it2));
                            } else {
                                let prev = LR1Item { rule: it2.rule, dot_pos: (it2.dot_pos - 1) as usize, la_token: it2.la_token };
                                if goto1_has(*g, post, x, it2) {
                                    if !pre.contains(prev) {
                                        let q = choose|q: int| 0 <= q < post.len() && post[q] == prev;
                                        if q < pre.len() {
                                            assert(pre[q] == prev);
                                        }
                                        assert(prev == it);
                                    } else {
                                        // an item of the prefix with `x` next would have made a group
                                        let q = choose|q: int| 0 <= q < pre.len() && pre[q] == prev;
                                        assert(items@[q] == prev);
                                        assert(next_elem1(*g, items@[q]) is Some);
                                        let b = choose|b: int| 0 <= b < old_res.len() && old_res[b].0 == next_elem1(*g, items@[q])->0;
                                        assert(old_res[b].0 == x);
                                        assert(false);
                                    }
                                }
                            }
                        }
                        assert forall|b: int, it2: LR1Item|
                            0 <= b < old_res.len() implies (#[trigger] res@[b].1@.contains(it2) <==> goto1_has(
                            *g,
                            post,
                            res@[b].0,
                            it2,
                        )) by {
                            assert(res@[b] == old_res[b]);
                            let prev = LR1Item { rule: it2.rule, dot_pos: (it2.dot_pos - 1) as usize, la_token: it2.la_token };
                            if pre.contains(prev) {
                                let q = choose|q: int| 0 <= q < pre.len() && pre[q] == prev;
                                assert(post[q] == prev);
                            }
                            if it2.dot_pos > 0 && post.contains(prev) && !pre.contains(prev) {
                                let q = choose|q: int| 0 <= q < post.len() && post[q] == prev;
                                if q < pre.len() {
                                    assert(pre[q] == prev);
                                }
                                assert(prev == it);
                                assert(old_res[b].0 != x);
                            }
                        }
                        assert(entry.1@.no_duplicates());
                        assert(all_valid1(*g, entry.1@));
                    }
                }
                proof {
                    assert forall|j: int|
                        0 <= j < i + 1 && next_elem1(*g, #[trigger] items@[j]) is Some implies exists|b: int|
                            0 <= b < res@.len() && res@[b].0 == next_elem1(*g, items@[j])->0 by {
                        if j < i {
                            let b = choose|b: int| 0 <= b < old_res.len() && old_res[b].0 == next_elem1(*g, items@[j])->0;
                            if found {
                                assert(res@[b].0 == old_res[b].0);
                            } else {
                                assert(res@[b] == old_res[b]);
                            }
                        } else {
                            if found {
                                assert(res@[a as int].0 == x);
                            } else {
                                assert(res@[old_res.len() as int].0 == x);
                            }
                        }
                    }
                }
            },
            None => {
                proof {
                    assert forall|a: int, it2: LR1Item|
                        0 <= a < res@.len() implies (#[trigger] res@[a].1@.contains(it2) <==> goto1_has(
                        *g,
                        post,
                        res@[a].0,
                        it2,
                    )) by {
                        let prev = LR1Item { rule: it2.rule, dot_pos: (it2.dot_pos - 1) as usize, la_token: it2.la_token };
                        if pre.contains(prev) {
                            let q = choose|q: int| 0 <= q < pre.len() && pre[q] == prev;
                            assert(post[q] == prev);
                        }
                        if it2.dot_pos > 0 && post.contains(prev) && !pre.contains(prev) {
                            let q = choose|q: int| 0 <= q < post.len() && post[q] == prev;
                            if q < pre.len() {
                                assert(pre[q] == prev);
                            }
                            assert(prev == it);
                        }
                    }
                }
            },
        }
        i = i + 1;
    }
    assert(items@.subrange(0, items@.len() as int) == items@);
    assert forall|it: LR1Item|
        #[trigger] items@.contains(it) && next_elem1(*g, it) is Some implies exists|a: int|
            0 <= a < res@.len() && res@[a].0 == next_elem1(*g, it)->0 by {
        let j = choose|j: int| 0 <= j < items@.len() && items@[j] == it;
        assert(next_elem1(*g, items@[j]) is Some);
    }
    res
}

} // verus!
