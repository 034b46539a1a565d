//! FOLLOW sets of a grammar, in two variants.
//!
//! `EOF` follows the start symbol. For each occurrence of a nonterminal `B`
//! in a right side `A ::= α B β`, FIRST(β) (as `FirstSet::get_by` computes
//! it, without `Epsilon`) is added to FOLLOW(`B`). `get_by` never yields
//! `Epsilon`; where β may vanish it yields `EOF` instead, so `EOF` is what
//! follows `B` there (`FollowSet::from`). The variant with rule ends
//! (`FollowSet::with_rule_ends`) also adds FOLLOW(`A`) to FOLLOW(`B`) where
//! β may vanish, as the SLR(1) construction needs. Each result is the least
//! table closed under its steps.
use vstd::prelude::*;
use crate::grammar::{RuleElem, RuleSet};
use crate::bitset::{
    table_shape, table_le, table_grew, row_le, row_grew, tview, new_table, copy_row,
    table_count_false, lemma_table_le_trans, lemma_table_count_false_mono, lemma_table_antisym,
};
use crate::first::{
    FirstSet, seq_first_at, first_table, elems_of_row, in_universe, elem_index, table_get,
};

verus! {

/// The FOLLOW step for position `p` of rule `i` holds in `fo`; with
/// `ends`, FOLLOW of the left side flows to a nonterminal after which the
/// rule may vanish.
pub open spec fn follow_step_ok(g: RuleSet, f: Seq<Seq<bool>>, fo: Seq<Seq<bool>>, i: int, p: int, ends: bool) -> bool {
    let r = g.rules@[i];
    let nt = g.nt();
    r.rhs@[p] matches RuleElem::NonTerm(m) ==> {
        &&& forall|k: int|
            0 <= k < nt + 2 && k != nt && seq_first_at(f, nt, r.rhs@, p + 1, k) ==> #[trigger] fo[m as int][k]
        &&& ends && seq_first_at(f, nt, r.rhs@, p + 1, nt + 1int) ==> forall|k: int|
            0 <= k < nt + 2 && fo[r.lhs as int][k] ==> #[trigger] fo[m as int][k]
    }
}

/// `fo` is closed under the FOLLOW steps of `g`, FIRST sets being `f`.
pub open spec fn follow_closed(g: RuleSet, f: Seq<Seq<bool>>, fo: Seq<Seq<bool>>, ends: bool) -> bool {
    &&& fo[g.top as int][g.nt() + 1int]
    &&& forall|i: int, p: int|
        0 <= i < g.rules@.len() && 0 <= p < g.rules@[i].rhs@.len() ==> #[trigger] follow_step_ok(g, f, fo, i, p, ends)
}

/// `fo` is the least table closed under the steps (with rule ends or not).
pub open spec fn is_follow_table_by(g: RuleSet, fo: Seq<Seq<bool>>, ends: bool) -> bool {
    let f = first_table(g);
    &&& table_shape(fo, g.nn(), g.nt() + 2)
    &&& follow_closed(g, f, fo, ends)
    &&& forall|h: Seq<Seq<bool>>|
        #![trigger follow_closed(g, f, h, ends)]
        table_shape(h, g.nn(), g.nt() + 2) && follow_closed(g, f, h, ends) ==> table_le(fo, h)
}

/// `fo` is the table of FOLLOW sets of `g`.
pub open spec fn is_follow_table(g: RuleSet, fo: Seq<Seq<bool>>) -> bool {
    is_follow_table_by(g, fo, false)
}

/// The table of FOLLOW sets of `g`.
pub open spec fn follow_table(g: RuleSet) -> Seq<Seq<bool>> {
    choose|fo: Seq<Seq<bool>>| is_follow_table(g, fo)
}

/// The table of FOLLOW sets of `g` with rule ends.
pub open spec fn full_follow_table(g: RuleSet) -> Seq<Seq<bool>> {
    choose|fo: Seq<Seq<bool>>| is_follow_table_by(g, fo, true)
}

/// There is one table of FOLLOW sets of each variant.
pub proof fn lemma_follow_table_unique(g: RuleSet, a: Seq<Seq<bool>>, b: Seq<Seq<bool>>, ends: bool)
    requires
        is_follow_table_by(g, a, ends),
        is_follow_table_by(g, b, ends),
    ensures
        a == b,
{
    assert(table_le(a, b));
    assert(table_le(b, a));
    lemma_table_antisym(a, b);
}

/// The FOLLOW sets of the nonterminals of a grammar.
pub struct FollowSet {
    table: Vec<Vec<bool>>,
    num_terms: usize,
    num_nonterms: usize,
}

impl View for FollowSet {
    type V = Seq<Seq<bool>>;

    closed spec fn view(&self) -> Seq<Seq<bool>> {
        tview(self.table@)
    }
}

/// Adds row `src` (without `Epsilon` when `skip_eps`) into `row`.
fn join_row(row: &mut Vec<bool>, src: &Vec<bool>, nt: usize, skip_eps: bool) -> (changed: bool)
    requires
        old(row)@.len() == nt + 2,
        src@.len() == nt + 2,
        nt + 2 < usize::MAX,
    ensures
        final(row)@.len() == nt + 2,
        row_le(old(row)@, final(row)@),
        forall|k: int| 0 <= k < nt + 2 && src@[k] && !(skip_eps && k == nt) ==> #[trigger] final(row)@[k],
        forall|k: int| 0 <= k < nt + 2 && #[trigger] final(row)@[k] ==> old(row)@[k] || (src@[k] && !(skip_eps && k == nt)),
        changed ==> row_grew(old(row)@, final(row)@),
        !changed ==> final(row)@ == old(row)@,
{
    let ghost r0 = row@;
    let mut changed = false;
    let mut k: usize = 0;
    while k < nt + 2
        invariant
            nt + 2 < usize::MAX,
            row@.len() == nt + 2,
            src@.len() == nt + 2,
            r0.len() == nt + 2,
            k <= nt + 2,
            row_le(r0, row@),
            forall|j: int| 0 <= j < k && src@[j] && !(skip_eps && j == nt) ==> #[trigger] row@[j],
            forall|j: int| 0 <= j < nt + 2 && #[trigger] row@[j] ==> r0[j] || (src@[j] && !(skip_eps && j == nt)),
            changed ==> row_grew(r0, row@),
            !changed ==> row@ == r0,
        decreases nt + 2 - k,
    {
        if src[k] && !(skip_eps && k == nt) && !row[k] {
            let ghost before = row@;
            row.set(k, true);
            assert(!r0[k as int] && row@[k as int]);
            changed = true;
            assert(row_le(r0, row@)) by {
                assert forall|j: int| 0 <= j < r0.len() && #[trigger] r0[j] implies row@[j] by {
                    assert(before[j]);
                }
            }
        }
        k = k + 1;
    }
    changed
}

/// The FOLLOW step for position `p` of rule `i`. Returns whether a row grew.
fn follow_merge(g: &RuleSet, first: &FirstSet, table: &mut Vec<Vec<bool>>, i: usize, p: usize, ends: bool) -> (changed: bool)
    requires
        g.wf(),
        first.wf(),
        first.nt() == g.nt(),
        first.nn() == g.nn(),
        first@ == first_table(*g),
        i < g.rules@.len(),
        p < g.rules@[i as int].rhs@.len(),
        table_shape(tview(old(table)@), g.nn(), g.nt() + 2),
    ensures
        table_shape(tview(final(table)@), g.nn(), g.nt() + 2),
        table_le(tview(old(table)@), tview(final(table)@)),
        changed ==> table_grew(tview(old(table)@), tview(final(table)@)),
        !changed ==> tview(final(table)@) == tview(old(table)@),
        follow_step_ok(*g, first_table(*g), tview(final(table)@), i as int, p as int, ends),
        forall|h: Seq<Seq<bool>>|
            #![trigger follow_closed(*g, first_table(*g), h, ends)]
            table_shape(h, g.nn(), g.nt() + 2) && follow_closed(*g, first_table(*g), h, ends) && table_le(
                tview(old(table)@),
                h,
            ) ==> table_le(tview(final(table)@), h),
{
    let ghost t0 = tview(table@);
    let ghost f = first_table(*g);
    let ghost nt = g.nt();
    assert(g.rule_wf(i as int));
    let rule = &g.rules[i];
    let lhs = rule.lhs;
    let x = rule.rhs[p];
    match x {
        RuleElem::NonTerm(m) => {
            assert(x.valid_in(g.nt(), g.nn()));
            assert forall|j: int| 0 <= j < rule.rhs@.len() implies (#[trigger] rule.rhs@[j]).known_in(
                first.nt(),
                first.nn(),
            ) by {
                assert(rule.rhs@[j].valid_in(g.nt(), g.nn()));
            }
            let n = rule.rhs.len();
            assert(p < n);
            let firsts = first.get_by_from(rule.rhs.as_slice(), p + 1);
            let w = g.num_terms + 2;
            assert(t0[m as int] == table@[m as int]@);
            let mut row = copy_row(&table[m]);
            let ghost row0 = row@;
            let c1 = join_row(&mut row, &firsts, g.num_terms, true);
            let ghost row1 = row@;
            let mut c2 = false;
            if ends && firsts[g.num_terms + 1] {
                assert(t0[lhs as int] == table@[lhs as int]@);
                let lrow = copy_row(&table[lhs]);
                c2 = join_row(&mut row, &lrow, g.num_terms, false);
            }
            let changed = c1 || c2;
            table.set(m, row);
            let ghost t1 = tview(table@);
            assert(t1 == t0.update(m as int, row@));
            assert(row_le(row0, row@)) by {
                assert forall|k: int| 0 <= k < row0.len() && #[trigger] row0[k] implies row@[k] by {
                    assert(row1[k]);
                }
            }
            assert(table_shape(t1, g.nn(), g.nt() + 2));
            assert(table_le(t0, t1)) by {
                assert forall|a: int| 0 <= a < t0.len() implies row_le(#[trigger] t0[a], t1[a]) by {
                    if a != m {
                        assert(t1[a] == t0[a]);
                    }
                }
            }
            if changed {
                if c1 {
                    let ghost j = choose|j: int| 0 <= j < row0.len() && !row0[j] && #[trigger] row1[j];
                    assert(row@[j]);
                    assert(!t0[m as int][j] && t1[m as int][j]);
                } else {
                    let ghost j = choose|j: int| 0 <= j < row1.len() && !row1[j] && #[trigger] row@[j];
                    assert(!t0[m as int][j] && t1[m as int][j]);
                }
                assert(table_grew(t0, t1));
            } else {
                assert(t1 =~= t0);
            }
            let ghost rhs = g.rules@[i as int].rhs@;
            assert(rule.rhs@ == rhs);
            assert forall|k: int|
                0 <= k < nt + 2 && k != nt && seq_first_at(f, nt, rhs, p + 1, k) implies #[trigger] t1[m as int][k] by {
                assert(firsts@[k]);
                assert(row1[k]);
            }
            proof {
                if ends && seq_first_at(f, nt, rhs, p + 1, nt + 1int) {
                    assert(firsts@[nt + 1int]);
                    assert forall|k: int| 0 <= k < nt + 2 && t1[lhs as int][k] implies #[trigger] t1[m as int][k] by {
                        if lhs != m {
                            assert(t1[lhs as int] == t0[lhs as int]);
                        }
                    }
                }
            }
            assert(follow_step_ok(*g, f, t1, i as int, p as int, ends));
            assert forall|h: Seq<Seq<bool>>|
                #![trigger follow_closed(*g, f, h, ends)]
                table_shape(h, g.nn(), g.nt() + 2) && follow_closed(*g, f, h, ends) && table_le(t0, h) implies table_le(
                t1,
                h,
            ) by {
                assert(follow_step_ok(*g, f, h, i as int, p as int, ends));
                assert forall|a: int| 0 <= a < t1.len() implies row_le(#[trigger] t1[a], h[a]) by {
                    assert(row_le(t0[a], h[a]));
                    if a == m {
                        assert forall|k: int| 0 <= k < t1[a].len() && #[trigger] t1[a][k] implies h[a][k] by {
                            if !row0[k] {
                                if !row1[k] {
                                    assert(row_le(t0[lhs as int], h[lhs as int]));
                                    assert(t0[lhs as int][k]);
                                    assert(h[lhs as int][k]);
                                } else {
                                    assert(firsts@[k]);
                                }
                            }
                        }
                    } else {
                        assert(t1[a] == t0[a]);
                    }
                }
            }
            changed
        },
        _ => {
            false
        },
    }
}

/// One pass of FOLLOW steps over all positions of all rules.
fn expand_child(g: &RuleSet, first: &FirstSet, table: &mut Vec<Vec<bool>>, ends: bool) -> (changed: bool)
    requires
        g.wf(),
        first.wf(),
        first.nt() == g.nt(),
        first.nn() == g.nn(),
        first@ == first_table(*g),
        table_shape(tview(old(table)@), g.nn(), g.nt() + 2),
    ensures
        table_shape(tview(final(table)@), g.nn(), g.nt() + 2),
        table_le(tview(old(table)@), tview(final(table)@)),
        changed ==> table_grew(tview(old(table)@), tview(final(table)@)),
        !changed ==> forall|i: int, p: int|
            0 <= i < g.rules@.len() && 0 <= p < g.rules@[i].rhs@.len() ==> #[trigger] follow_step_ok(
                *g,
                first_table(*g),
                tview(final(table)@),
                i,
                p,
                ends,
            ),
        forall|h: Seq<Seq<bool>>|
            #![trigger follow_closed(*g, first_table(*g), h, ends)]
            table_shape(h, g.nn(), g.nt() + 2) && follow_closed(*g, first_table(*g), h, ends) && table_le(
                tview(old(table)@),
                h,
            ) ==> table_le(tview(final(table)@), h),
{
    let ghost t0 = tview(table@);
    let ghost f = first_table(*g);
    let mut changed = false;
    let mut i: usize = 0;
    while i < g.rules.len()
        invariant
            g.wf(),
            first.wf(),
            first.nt() == g.nt(),
            first.nn() == g.nn(),
            first@ == f,
            f == first_table(*g),
            i <= g.rules@.len(),
            table_shape(tview(table@), g.nn(), g.nt() + 2),
            table_le(t0, tview(table@)),
            changed ==> table_grew(t0, tview(table@)),
            !changed ==> tview(table@) == t0,
            !changed ==> forall|j: int, q: int|
                0 <= j < i && 0 <= q < g.rules@[j].rhs@.len() ==> #[trigger] follow_step_ok(*g, f, tview(table@), j, q, ends),
            forall|h: Seq<Seq<bool>>|
                #![trigger follow_closed(*g, f, h, ends)]
                table_shape(h, g.nn(), g.nt() + 2) && follow_closed(*g, f, h, ends) && table_le(t0, h) ==> table_le(
                    tview(table@),
                    h,
                ),
        decreases g.rules@.len() - i,
    {
        let mut p: usize = 0;
        let n = g.rules[i].rhs.len();
        while p < n
            invariant
                g.wf(),
                first.wf(),
                first.nt() == g.nt(),
                first.nn() == g.nn(),
                first@ == f,
                f == first_table(*g),
                i < g.rules@.len(),
                n == g.rules@[i as int].rhs@.len(),
                p <= n,
                table_shape(tview(table@), g.nn(), g.nt() + 2),
                table_le(t0, tview(table@)),
                changed ==> table_grew(t0, tview(table@)),
                !changed ==> tview(table@) == t0,
                !changed ==> forall|j: int, q: int|
                    0 <= j < i && 0 <= q < g.rules@[j].rhs@.len() ==> #[trigger] follow_step_ok(
                        *g,
                        f,
                        tview(table@),
                        j,
                        q,
                        ends,
                    ),
                !changed ==> forall|q: int| 0 <= q < p ==> #[trigger] follow_step_ok(*g, f, tview(table@), i as int, q, ends),
                forall|h: Seq<Seq<bool>>|
                    #![trigger follow_closed(*g, f, h, ends)]
                    table_shape(h, g.nn(), g.nt() + 2) && follow_closed(*g, f, h, ends) && table_le(t0, h) ==> table_le(
                        tview(table@),
                        h,
                    ),
            decreases n - p,
        {
            let ghost before = tview(table@);
            let c = follow_merge(g, first, table, i, p, ends);
            let ghost after = tview(table@);
            proof {
                lemma_table_le_trans(t0, before, after);
            }
            if changed {
                let ghost (a, k) = choose|a: int, k: int|
                    0 <= a < t0.len() && 0 <= k < t0[a].len() && !t0[a][k] && #[trigger] before[a][k];
                assert(row_le(before[a], after[a]));
                assert(after[a][k]);
            }
            if c {
                if !changed {
                    assert(before == t0);
                }
                changed = true;
            }
            assert forall|h: Seq<Seq<bool>>|
                #![trigger follow_closed(*g, f, h, ends)]
                table_shape(h, g.nn(), g.nt() + 2) && follow_closed(*g, f, h, ends) && table_le(t0, h) implies table_le(
                after,
                h,
            ) by {
                assert(table_le(before, h));
            }
            p = p + 1;
        }
        i = i + 1;
    }
    changed
}

impl FollowSet {
    pub closed spec fn nt(&self) -> nat {
        self.num_terms as nat
    }

    pub closed spec fn nn(&self) -> nat {
        self.num_nonterms as nat
    }

    pub closed spec fn wf(&self) -> bool {
        &&& table_shape(self@, self.num_nonterms as nat, (self.num_terms + 2) as nat)
        &&& self.num_terms + 2 < usize::MAX
    }

    /// Computes the FOLLOW sets of the grammar by saturation: FIRST of
    /// what stands after each occurrence, `EOF` where that may vanish.
    pub fn from(ruleset: &RuleSet) -> (res: FollowSet)
        requires
            ruleset.wf(),
        ensures
            res.wf(),
            res.nt() == ruleset.nt(),
            res.nn() == ruleset.nn(),
            is_follow_table(*ruleset, res@),
            res@ == follow_table(*ruleset),
    {
        let res = Self::saturate(ruleset, false);
        proof {
            assert(is_follow_table(*ruleset, res@));
            lemma_follow_table_unique(*ruleset, res@, follow_table(*ruleset), false);
        }
        res
    }

    /// Computes the FOLLOW sets of the grammar by saturation, FOLLOW of a
    /// rule's left side also flowing to a nonterminal after which the rule
    /// may vanish.
    pub fn with_rule_ends(ruleset: &RuleSet) -> (res: FollowSet)
        requires
            ruleset.wf(),
        ensures
            res.wf(),
            res.nt() == ruleset.nt(),
            res.nn() == ruleset.nn(),
            is_follow_table_by(*ruleset, res@, true),
            res@ == full_follow_table(*ruleset),
    {
        let res = Self::saturate(ruleset, true);
        proof {
            assert(is_follow_table_by(*ruleset, res@, true));
            lemma_follow_table_unique(*ruleset, res@, full_follow_table(*ruleset), true);
        }
        res
    }

    fn saturate(ruleset: &RuleSet, ends: bool) -> (res: FollowSet)
        requires
            ruleset.wf(),
        ensures
            res.wf(),
            res.nt() == ruleset.nt(),
            res.nn() == ruleset.nn(),
            is_follow_table_by(*ruleset, res@, ends),
    {
        let g = ruleset;
        let first = FirstSet::from(g);
        let ghost f = first_table(*g);
        let mut table = new_table(g.num_nonterms, g.num_terms + 2);
        let ghost t0 = tview(table@);
        let ghost old_table_rows = table@;
        assert(t0[g.top as int] == table@[g.top as int]@);
        let mut top_row = copy_row(&table[g.top]);
        top_row.set(g.num_terms + 1, true);
        table.set(g.top, top_row);
        assert(tview(table@) == t0.update(g.top as int, top_row@));
        assert(table_shape(tview(table@), g.nn(), g.nt() + 2));
        assert forall|h: Seq<Seq<bool>>|
            #![trigger follow_closed(*g, f, h, ends)]
            table_shape(h, g.nn(), g.nt() + 2) && follow_closed(*g, f, h, ends) implies table_le(tview(table@), h) by {
            assert forall|a: int| 0 <= a < tview(table@).len() implies row_le(#[trigger] tview(table@)[a], h[a]) by {
                assert forall|k: int| 0 <= k < tview(table@)[a].len() && #[trigger] tview(table@)[a][k] implies h[a][k] by {
                    if a != g.top || k != g.nt() + 1 {
                        assert(tview(table@)[a][k] == t0[a][k]);
                        assert(t0[a] == old_table_rows[a]@);
                    }
                }
            }
        }
        loop
            invariant
                g.wf(),
                first.wf(),
                first.nt() == g.nt(),
                first.nn() == g.nn(),
                first@ == f,
                f == first_table(*g),
                table_shape(tview(table@), g.nn(), g.nt() + 2),
                tview(table@)[g.top as int][g.nt() + 1int],
                forall|h: Seq<Seq<bool>>|
                    #![trigger follow_closed(*g, f, h, ends)]
                    table_shape(h, g.nn(), g.nt() + 2) && follow_closed(*g, f, h, ends) ==> table_le(tview(table@), h),
            ensures
                table_shape(tview(table@), g.nn(), g.nt() + 2),
                follow_closed(*g, f, tview(table@), ends),
                forall|h: Seq<Seq<bool>>|
                    #![trigger follow_closed(*g, f, h, ends)]
                    table_shape(h, g.nn(), g.nt() + 2) && follow_closed(*g, f, h, ends) ==> table_le(tview(table@), h),
            decreases table_count_false(tview(table@)),
        {
            let ghost before = tview(table@);
            let changed = expand_child(g, &first, &mut table, ends);
            proof {
                lemma_table_count_false_mono(before, tview(table@));
                assert(row_le(before[g.top as int], tview(table@)[g.top as int]));
            }
            if !changed {
                break;
            }
        }
        let res = FollowSet { table, num_terms: g.num_terms, num_nonterms: g.num_nonterms };
        assert(is_follow_table_by(*g, res@, ends));
        res
    }

    /// Whether index `k` is in FOLLOW(`nonterm`).
    pub fn contains(&self, nonterm: usize, k: usize) -> (res: bool)
        requires
            self.wf(),
            nonterm < self.nn(),
            k < self.nt() + 2,
        ensures
            res == self@[nonterm as int][k as int],
    {
        table_get(&self.table, nonterm, k)
    }

    /// The FOLLOW set of a declared nonterminal as a row over the token
    /// kinds, `Epsilon` and `EOF`.
    pub fn row(&self, nonterm: usize) -> (res: Vec<bool>)
        requires
            self.wf(),
            nonterm < self.nn(),
        ensures
            res@ == self@[nonterm as int],
            res@.len() == self.nt() + 2,
    {
        assert(self@[nonterm as int] == self.table@[nonterm as int]@);
        copy_row(&self.table[nonterm])
    }

    /// The FOLLOW set of a nonterminal; `None` for an undeclared one.
    pub fn get(&self, nonterm: usize) -> (res: Option<Vec<RuleElem>>)
        requires
            self.wf(),
        ensures
            res is None <==> nonterm >= self.nn(),
            res matches Some(v) ==> v@.no_duplicates(),
            res matches Some(v) ==> forall|e: RuleElem| #[trigger]
                v@.contains(e) <==> (in_universe(e, self.nt()) && self@[nonterm as int][elem_index(e, self.nt())]),
    {
        if nonterm >= self.num_nonterms {
            return None;
        }
        assert(self@[nonterm as int] == self.table@[nonterm as int]@);
        let v = elems_of_row(&self.table[nonterm], self.num_terms);
        Some(v)
    }
}

} // verus!
