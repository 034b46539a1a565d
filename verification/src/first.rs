//! FIRST sets of a grammar.
//!
//! The FIRST set of a nonterminal `A` is grown from the first symbol of each
//! right side of `A`: a terminal, `Epsilon` or `EOF` there is added itself, a
//! nonterminal `B` there adds all of FIRST(`B`). The result is the least
//! table closed under these steps.
//!
//! Sets are rows of booleans over the `num_terms + 2` indices: `t` for the
//! terminal `t`, `num_terms` for `Epsilon`, `num_terms + 1` for `EOF`.
use vstd::prelude::*;
use crate::grammar::{RuleElem, RuleSet};
use crate::bitset::{table_shape, table_le, table_grew, row_le, row_grew, tview, new_row, new_table, copy_row, table_count_false, lemma_table_le_trans, lemma_table_count_false_mono};

verus! {

/// The index of a terminal-like symbol in a row.
pub open spec fn elem_index(e: RuleElem, nt: nat) -> int {
    match e {
        RuleElem::Term(t) => t as int,
        RuleElem::Epsilon => nt as int,
        RuleElem::EOF => (nt + 1) as int,
        RuleElem::NonTerm(_) => -1,
    }
}

/// The symbol at an index of a row.
pub open spec fn index_elem(k: int, nt: nat) -> RuleElem {
    if k < nt {
        RuleElem::Term(k as usize)
    } else if k == nt {
        RuleElem::Epsilon
    } else {
        RuleElem::EOF
    }
}

/// The symbol can be a member of a FIRST or FOLLOW set.
pub open spec fn in_universe(e: RuleElem, nt: nat) -> bool {
    match e {
        RuleElem::Term(t) => t < nt,
        RuleElem::Epsilon => true,
        RuleElem::EOF => true,
        RuleElem::NonTerm(_) => false,
    }
}

/// Index `k` is in the FIRST set of the symbol `x`, where `f` holds the
/// FIRST sets of the nonterminals.
pub open spec fn sym_has(f: Seq<Seq<bool>>, nt: nat, x: RuleElem, k: int) -> bool {
    match x {
        RuleElem::NonTerm(n) => f[n as int][k],
        RuleElem::Term(t) => k == t,
        RuleElem::Epsilon => k == nt,
        RuleElem::EOF => k == nt + 1,
    }
}

/// `f` is closed under the FIRST steps of the rules of `g`.
pub open spec fn first_closed(g: RuleSet, f: Seq<Seq<bool>>) -> bool {
    forall|i: int, k: int|
        0 <= i < g.rules@.len() && 0 <= k < g.nt() + 2 && #[trigger] sym_has(
            f,
            g.nt(),
            g.rules@[i].rhs@[0],
            k,
        ) ==> f[g.rules@[i].lhs as int][k]
}

/// `f` is the table of FIRST sets of `g`: the least table closed under the
/// FIRST steps.
pub open spec fn is_first_table(g: RuleSet, f: Seq<Seq<bool>>) -> bool {
    &&& table_shape(f, g.nn(), g.nt() + 2)
    &&& first_closed(g, f)
    &&& forall|h: Seq<Seq<bool>>|
        #![trigger first_closed(g, h)]
        table_shape(h, g.nn(), g.nt() + 2) && first_closed(g, h) ==> table_le(f, h)
}

/// FIRST of the symbols `s[i..]`, the way `get_by` computes it: the FIRST
/// sets of the symbols are joined while they hold `Epsilon`, `Epsilon`
/// itself is dropped, and `EOF` stands for "all of them may vanish".
pub open spec fn seq_first_at(f: Seq<Seq<bool>>, nt: nat, s: Seq<RuleElem>, i: int, k: int) -> bool
    decreases s.len() - i,
{
    if i >= s.len() || i < 0 {
        k == nt + 1
    } else if sym_has(f, nt, s[i], nt as int) {
        (k != nt && sym_has(f, nt, s[i], k)) || seq_first_at(f, nt, s, i + 1, k)
    } else {
        sym_has(f, nt, s[i], k)
    }
}

pub open spec fn seq_first(f: Seq<Seq<bool>>, nt: nat, s: Seq<RuleElem>, k: int) -> bool {
    seq_first_at(f, nt, s, 0, k)
}

/// The FIRST sets of the nonterminals of a grammar.
pub struct FirstSet {
    table: Vec<Vec<bool>>,
    num_terms: usize,
    num_nonterms: usize,
}

impl View for FirstSet {
    type V = Seq<Seq<bool>>;

    closed spec fn view(&self) -> Seq<Seq<bool>> {
        tview(self.table@)
    }
}

/// The symbols whose indices are set in `row`, in index order.
pub fn elems_of_row(row: &Vec<bool>, nt: usize) -> (res: Vec<RuleElem>)
    requires
        row@.len() == nt + 2,
        nt + 2 < usize::MAX,
    ensures
        forall|e: RuleElem| #[trigger]
            res@.contains(e) <==> (in_universe(e, nt as nat) && row@[elem_index(e, nt as nat)]),
        res@.no_duplicates(),
{
    let mut res: Vec<RuleElem> = Vec::new();
    let mut k: usize = 0;
    let w = nt + 2;
    while k < w
        invariant
            w == nt + 2,
            row@.len() == w,
            k <= w,
            forall|j: int| 0 <= j < res@.len() ==> in_universe(#[trigger] res@[j], nt as nat),
            forall|j: int| 0 <= j < res@.len() ==> elem_index(#[trigger] res@[j], nt as nat) < k,
            forall|a: int, b: int|
                0 <= a < b < res@.len() ==> elem_index(#[trigger] res@[a], nt as nat) < elem_index(
                    #[trigger] res@[b],
                    nt as nat,
                ),
            forall|e: RuleElem|
                in_universe(e, nt as nat) && elem_index(e, nt as nat) < k && row@[elem_index(
                    e,
                    nt as nat,
                )] ==> #[trigger] res@.contains(e),
            forall|j: int| 0 <= j < res@.len() ==> row@[elem_index(#[trigger] res@[j], nt as nat)],
        decreases w - k,
    {
        if row[k] {
            let e = if k < nt {
                RuleElem::Term(k)
            } else if k == nt {
                RuleElem::Epsilon
            } else {
                RuleElem::EOF
            };
            assert(elem_index(e, nt as nat) == k);
            let ghost prev = res@;
            res.push(e);
            assert(res@[res@.len() - 1] == e);
            assert forall|e2: RuleElem|
                in_universe(e2, nt as nat) && elem_index(e2, nt as nat) < k + 1 && row@[elem_index(
                    e2,
                    nt as nat,
                )] implies #[trigger] res@.contains(e2) by {
                if elem_index(e2, nt as nat) == k {
                    assert(e2 == e);
                } else {
                    assert(prev.contains(e2));
                    let q = choose|q: int| 0 <= q < prev.len() && prev[q] == e2;
                    assert(res@[q] == e2);
                }
            }
        }
        k = k + 1;
    }
    assert forall|e: RuleElem| #[trigger] res@.contains(e) implies (in_universe(e, nt as nat)
        && row@[elem_index(e, nt as nat)]) by {
        let j = choose|j: int| 0 <= j < res@.len() && res@[j] == e;
        assert(in_universe(res@[j], nt as nat));
    }
    assert(res@.no_duplicates()) by {
        assert forall|a: int, b: int| 0 <= a < res@.len() && 0 <= b < res@.len() && a != b implies res@[a]
            != res@[b] by {
            if a < b {
                assert(elem_index(res@[a], nt as nat) < elem_index(res@[b], nt as nat));
            } else {
                assert(elem_index(res@[b], nt as nat) < elem_index(res@[a], nt as nat));
            }
        }
    }
    res
}

/// Entry `k` of row `m`.
pub fn table_get(table: &Vec<Vec<bool>>, m: usize, k: usize) -> (res: bool)
    requires
        m < table@.len(),
        k < tview(table@)[m as int].len(),
    ensures
        res == tview(table@)[m as int][k as int],
{
    assert(tview(table@)[m as int] == table@[m as int]@);
    table[m][k]
}

/// One FIRST step for rule `i`: adds FIRST(first symbol of the right side)
/// to the row of its left side. Returns whether the row grew.
fn merge_rule(g: &RuleSet, table: &mut Vec<Vec<bool>>, i: usize) -> (changed: bool)
    requires
        g.wf(),
        i < g.rules@.len(),
        table_shape(tview(old(table)@), g.nn(), g.nt() + 2),
    ensures
        table_shape(tview(final(table)@), g.nn(), g.nt() + 2),
        table_le(tview(old(table)@), tview(final(table)@)),
        changed ==> table_grew(tview(old(table)@), tview(final(table)@)),
        !changed ==> tview(final(table)@) == tview(old(table)@),
        forall|k: int|
            0 <= k < g.nt() + 2 && #[trigger] sym_has(tview(final(table)@), g.nt(), g.rules@[i as int].rhs@[0], k)
                ==> tview(final(table)@)[g.rules@[i as int].lhs as int][k],
        forall|h: Seq<Seq<bool>>|
            #![trigger first_closed(*g, h)]
            table_shape(h, g.nn(), g.nt() + 2) && first_closed(*g, h) && table_le(tview(old(table)@), h)
                ==> table_le(tview(final(table)@), h),
{
    let ghost t0 = tview(table@);
    let ghost nt = g.nt();
    assert(g.rule_wf(i as int));
    let rule = &g.rules[i];
    let lhs = rule.lhs;
    let x = rule.rhs[0];
    assert(x.valid_in(g.nt(), g.nn()));
    let w = g.num_terms + 2;
    let mut row = copy_row(&table[lhs]);
    let ghost row0 = row@;
    assert(t0[lhs as int] == row0);
    let mut changed = false;
    let mut k: usize = 0;
    while k < w
        invariant
            w == g.nt() + 2,
            nt == g.nt(),
            t0 == tview(table@),
            table_shape(t0, g.nn(), g.nt() + 2),
            lhs < g.num_nonterms,
            x.valid_in(g.nt(), g.nn()),
            row0 == t0[lhs as int],
            row@.len() == w,
            k <= w,
            row_le(row0, row@),
            forall|j: int| 0 <= j < k && sym_has(t0, nt, x, j) ==> #[trigger] row@[j],
            forall|j: int| 0 <= j < w && #[trigger] row@[j] ==> row0[j] || sym_has(t0, nt, x, j),
            changed ==> row_grew(row0, row@),
            !changed ==> row@ == row0,
        decreases w - k,
    {
        let has = match x {
            RuleElem::NonTerm(m) => table_get(table, m, k),
            RuleElem::Term(t) => k == t,
            RuleElem::Epsilon => k == g.num_terms,
            RuleElem::EOF => k == g.num_terms + 1,
        };
        assert(has == sym_has(t0, nt, x, k as int));
        if has && !row[k] {
            let ghost before = row@;
            row.set(k, true);
            assert(!row0[k as int] && row@[k as int]);
            changed = true;
            assert(row_le(row0, row@)) by {
                assert forall|j: int| 0 <= j < row0.len() && #[trigger] row0[j] implies row@[j] by {
                    assert(before[j]);
                }
            }
        }
        k = k + 1;
    }
    table.set(lhs, row);
    let ghost t1 = tview(table@);
    assert(t1 == t0.update(lhs as int, row@));
    assert(table_shape(t1, g.nn(), g.nt() + 2));
    assert(table_le(t0, t1)) by {
        assert forall|a: int| 0 <= a < t0.len() implies row_le(#[trigger] t0[a], t1[a]) by {
            if a != lhs {
                assert(t1[a] == t0[a]);
            }
        }
    }
    if changed {
        let ghost j = choose|j: int| 0 <= j < row0.len() && !row0[j] && #[trigger] row@[j];
        assert(!t0[lhs as int][j] && t1[lhs as int][j]);
        assert(table_grew(t0, t1));
    } else {
        assert(t1 =~= t0);
    }
    assert forall|kk: int| 0 <= kk < g.nt() + 2 && #[trigger] sym_has(t1, nt, x, kk) implies t1[lhs as int][kk] by {
        match x {
            RuleElem::NonTerm(m) => {
                if m != lhs {
                    assert(t1[m as int] == t0[m as int]);
                    assert(sym_has(t0, nt, x, kk));
                }
            },
            _ => {
                assert(sym_has(t0, nt, x, kk));
            },
        }
    }
    assert forall|h: Seq<Seq<bool>>|
        #![trigger first_closed(*g, h)]
        table_shape(h, g.nn(), g.nt() + 2) && first_closed(*g, h) && table_le(t0, h) implies table_le(t1, h) by {
        assert forall|a: int| 0 <= a < t1.len() implies row_le(#[trigger] t1[a], h[a]) by {
            assert(row_le(t0[a], h[a]));
            if a == lhs {
                assert forall|kk: int| 0 <= kk < t1[a].len() && #[trigger] t1[a][kk] implies h[a][kk] by {
                    if !row0[kk] {
                        assert(sym_has(t0, nt, x, kk));
                        match x {
                            RuleElem::NonTerm(m) => {
                                assert(row_le(t0[m as int], h[m as int]));
                            },
                            _ => {},
                        }
                        assert(sym_has(h, nt, g.rules@[i as int].rhs@[0], kk));
                    }
                }
            } else {
                assert(t1[a] == t0[a]);
            }
        }
    }
    changed
}

/// One pass of FIRST steps over all rules. Returns whether a row grew.
fn expand_child(g: &RuleSet, table: &mut Vec<Vec<bool>>) -> (changed: bool)
    requires
        g.wf(),
        table_shape(tview(old(table)@), g.nn(), g.nt() + 2),
    ensures
        table_shape(tview(final(table)@), g.nn(), g.nt() + 2),
        table_le(tview(old(table)@), tview(final(table)@)),
        changed ==> table_grew(tview(old(table)@), tview(final(table)@)),
        !changed ==> first_closed(*g, tview(final(table)@)),
        forall|h: Seq<Seq<bool>>|
            #![trigger first_closed(*g, h)]
            table_shape(h, g.nn(), g.nt() + 2) && first_closed(*g, h) && table_le(tview(old(table)@), h)
                ==> table_le(tview(final(table)@), h),
{
    let ghost t0 = tview(table@);
    let mut changed = false;
    let mut i: usize = 0;
    while i < g.rules.len()
        invariant
            g.wf(),
            i <= g.rules@.len(),
            table_shape(tview(table@), g.nn(), g.nt() + 2),
            table_le(t0, tview(table@)),
            changed ==> table_grew(t0, tview(table@)),
            !changed ==> tview(table@) == t0,
            !changed ==> forall|j: int, k: int|
                0 <= j < i && 0 <= k < g.nt() + 2 && #[trigger] sym_has(
                    tview(table@),
                    g.nt(),
                    g.rules@[j].rhs@[0],
                    k,
                ) ==> tview(table@)[g.rules@[j].lhs as int][k],
            forall|h: Seq<Seq<bool>>|
                #![trigger first_closed(*g, h)]
                table_shape(h, g.nn(), g.nt() + 2) && first_closed(*g, h) && table_le(t0, h) ==> table_le(
                    tview(table@),
                    h,
                ),
        decreases g.rules@.len() - i,
    {
        let ghost before = tview(table@);
        let c = merge_rule(g, table, i);
        let ghost after = tview(table@);
        proof { lemma_table_le_trans(t0, before, after); }
        if changed {
            let ghost (a, k) = choose|a: int, k: int|
                0 <= a < t0.len() && 0 <= k < t0[a].len() && !t0[a][k] && #[trigger] before[a][k];
            assert(row_le(before[a], after[a]));
            assert(after[a][k]);
        }
        if c {
            if !changed {
                assert(before == t0);
            }
            changed = true;
        }
        assert forall|h: Seq<Seq<bool>>|
            #![trigger first_closed(*g, h)]
            table_shape(h, g.nn(), g.nt() + 2) && first_closed(*g, h) && table_le(t0, h) implies table_le(after, h) by {
            assert(table_le(before, h));
        }
        i = i + 1;
    }
    changed
}

/// The table of FIRST sets of `g`.
pub open spec fn first_table(g: RuleSet) -> Seq<Seq<bool>> {
    choose|f: Seq<Seq<bool>>| is_first_table(g, f)
}

/// There is one table of FIRST sets.
pub proof fn lemma_first_table_unique(g: RuleSet, f1: Seq<Seq<bool>>, f2: Seq<Seq<bool>>)
    requires
        is_first_table(g, f1),
        is_first_table(g, f2),
    ensures
        f1 == f2,
{
    assert(table_le(f1, f2));
    assert(table_le(f2, f1));
    assert forall|i: int| 0 <= i < f1.len() implies #[trigger] f1[i] =~= f2[i] by {
        assert(row_le(f1[i], f2[i]));
        assert(row_le(f2[i], f1[i]));
        assert forall|k: int| 0 <= k < f1[i].len() implies f1[i][k] == f2[i][k] by {
            if f1[i][k] {
                assert(f2[i][k]);
            }
            if f2[i][k] {
                assert(f1[i][k]);
            }
        }
    }
    assert(f1 =~= f2);
}

impl FirstSet {
    pub closed spec fn nt(&self) -> nat {
        self.num_terms as nat
    }

    pub closed spec fn nn(&self) -> nat {
        self.num_nonterms as nat
    }

    pub closed spec fn wf(&self) -> bool {
        &&& table_shape(self@, self.num_nonterms as nat, (self.num_terms + 2) as nat)
        &&& self.num_terms + 2 < usize::MAX
    }

    /// Computes the FIRST sets of the grammar by saturation.
    pub fn from(ruleset: &RuleSet) -> (res: FirstSet)
        requires
            ruleset.wf(),
        ensures
            res.wf(),
            res.nt() == ruleset.nt(),
            res.nn() == ruleset.nn(),
            is_first_table(*ruleset, res@),
            res@ == first_table(*ruleset),
    {
        let g = ruleset;
        let mut table = new_table(g.num_nonterms, g.num_terms + 2);
        assert forall|h: Seq<Seq<bool>>|
            #![trigger first_closed(*g, h)]
            table_shape(h, g.nn(), g.nt() + 2) && first_closed(*g, h) implies table_le(tview(table@), h) by {
            assert forall|a: int| 0 <= a < tview(table@).len() implies row_le(#[trigger] tview(table@)[a], h[a]) by {
                assert forall|k: int| 0 <= k < tview(table@)[a].len() && #[trigger] tview(table@)[a][k] implies h[a][k] by {
                    assert(!table@[a]@[k]);
                }
            }
        }
        loop
            invariant
                g.wf(),
                table_shape(tview(table@), g.nn(), g.nt() + 2),
                forall|h: Seq<Seq<bool>>|
                    #![trigger first_closed(*g, h)]
                    table_shape(h, g.nn(), g.nt() + 2) && first_closed(*g, h) ==> table_le(tview(table@), h),
            ensures
                table_shape(tview(table@), g.nn(), g.nt() + 2),
                first_closed(*g, tview(table@)),
                forall|h: Seq<Seq<bool>>|
                    #![trigger first_closed(*g, h)]
                    table_shape(h, g.nn(), g.nt() + 2) && first_closed(*g, h) ==> table_le(tview(table@), h),
            decreases table_count_false(tview(table@)),
        {
            let ghost before = tview(table@);
            let changed = expand_child(g, &mut table);
            proof { lemma_table_count_false_mono(before, tview(table@)); }
            if !changed {
                break;
            }
        }
        let res = FirstSet { table, num_terms: g.num_terms, num_nonterms: g.num_nonterms };
        proof {
            assert(is_first_table(*g, res@));
            lemma_first_table_unique(*g, res@, first_table(*g));
        }
        res
    }

    /// Index `k` is in FIRST(`x`).
    pub closed spec fn has(&self, x: RuleElem, k: int) -> bool {
        sym_has(self@, self.nt(), x, k)
    }

    pub proof fn lemma_has(&self, x: RuleElem, k: int)
        ensures
            self.has(x, k) == sym_has(self@, self.nt(), x, k),
    {
    }

    pub fn num_terms(&self) -> (res: usize)
        ensures
            res == self.nt(),
    {
        self.num_terms
    }

    pub fn num_nonterms(&self) -> (res: usize)
        ensures
            res == self.nn(),
    {
        self.num_nonterms
    }

    /// Whether index `k` is in FIRST(`x`).
    pub fn contains(&self, x: RuleElem, k: usize) -> (res: bool)
        requires
            self.wf(),
            x.known_in(self.nt(), self.nn()),
            k < self.nt() + 2,
        ensures
            res == sym_has(self@, self.nt(), x, k as int),
    {
        match x {
            RuleElem::NonTerm(n) => table_get(&self.table, n, k),
            RuleElem::Term(t) => k == t,
            RuleElem::Epsilon => k == self.num_terms,
            RuleElem::EOF => k == self.num_terms + 1,
        }
    }

    /// The FIRST set of a symbol; `None` for a symbol that the grammar does
    /// not declare.
    pub fn get(&self, relem: RuleElem) -> (res: Option<Vec<RuleElem>>)
        requires
            self.wf(),
        ensures
            res is None <==> !relem.known_in(self.nt(), self.nn()),
            res matches Some(v) ==> v@.no_duplicates(),
            res matches Some(v) ==> forall|e: RuleElem| #[trigger]
                v@.contains(e) <==> (in_universe(e, self.nt()) && sym_has(
                    self@,
                    self.nt(),
                    relem,
                    elem_index(e, self.nt()),
                )),
    {
        let nt = self.num_terms;
        let known = match relem {
            RuleElem::NonTerm(n) => n < self.num_nonterms,
            RuleElem::Term(t) => t < nt,
            _ => true,
        };
        if !known {
            return None;
        }
        let mut row = new_row(nt + 2);
        let mut k: usize = 0;
        while k < nt + 2
            invariant
                self.wf(),
                nt == self.nt(),
                relem.known_in(self.nt(), self.nn()),
                row@.len() == nt + 2,
                k <= nt + 2,
                forall|j: int| 0 <= j < nt + 2 ==> #[trigger] row@[j] == (j < k && sym_has(self@, self.nt(), relem, j)),
            decreases nt + 2 - k,
        {
            let b = self.contains(relem, k);
            row.set(k, b);
            k = k + 1;
        }
        let v = elems_of_row(&row, nt);
        assert forall|e: RuleElem| #[trigger] v@.contains(e) <==> (in_universe(e, self.nt()) && sym_has(
            self@,
            self.nt(),
            relem,
            elem_index(e, self.nt()),
        )) by {
            if in_universe(e, self.nt()) {
                assert(0 <= elem_index(e, self.nt()) < nt + 2);
            }
        }
        Some(v)
    }

    /// Entry `k` of FIRST(`relems[start..]`).
    fn get_by_entry(&self, relems: &[RuleElem], start: usize, k: usize) -> (res: bool)
        requires
            self.wf(),
            start <= relems@.len(),
            k < self.nt() + 2,
            forall|j: int| 0 <= j < relems@.len() ==> (#[trigger] relems@[j]).known_in(self.nt(), self.nn()),
        ensures
            res == seq_first_at(self@, self.nt(), relems@, start as int, k as int),
    {
        let nt = self.num_terms;
        let mut i = start;
        while i < relems.len()
            invariant
                self.wf(),
                nt == self.nt(),
                k < nt + 2,
                start <= i <= relems@.len(),
                forall|j: int| 0 <= j < relems@.len() ==> (#[trigger] relems@[j]).known_in(self.nt(), self.nn()),
                seq_first_at(self@, self.nt(), relems@, start as int, k as int) == seq_first_at(
                    self@,
                    self.nt(),
                    relems@,
                    i as int,
                    k as int,
                ),
            decreases relems@.len() - i,
        {
            let x = relems[i];
            let has = self.contains(x, k);
            if !self.contains(x, nt) {
                return has;
            }
            if k != nt && has {
                return true;
            }
            i = i + 1;
        }
        k == nt + 1
    }

    /// FIRST of `relems[start..]` as a row.
    fn get_by_row(&self, relems: &[RuleElem], start: usize) -> (row: Vec<bool>)
        requires
            self.wf(),
            start <= relems@.len(),
            forall|j: int| 0 <= j < relems@.len() ==> (#[trigger] relems@[j]).known_in(self.nt(), self.nn()),
        ensures
            row@.len() == self.nt() + 2,
            forall|k: int| 0 <= k < self.nt() + 2 ==> #[trigger] row@[k] == seq_first_at(
                self@,
                self.nt(),
                relems@,
                start as int,
                k,
            ),
    {
        let w = self.num_terms + 2;
        let mut row: Vec<bool> = Vec::new();
        let mut k: usize = 0;
        while k < w
            invariant
                self.wf(),
                w == self.nt() + 2,
                start <= relems@.len(),
                forall|j: int| 0 <= j < relems@.len() ==> (#[trigger] relems@[j]).known_in(self.nt(), self.nn()),
                k <= w,
                row@.len() == k,
                forall|j: int| 0 <= j < k ==> #[trigger] row@[j] == seq_first_at(
                    self@,
                    self.nt(),
                    relems@,
                    start as int,
                    j,
                ),
            decreases w - k,
        {
            let b = self.get_by_entry(relems, start, k);
            row.push(b);
            k = k + 1;
        }
        row
    }

    /// FIRST of a sequence of symbols: the FIRST sets are joined while they
    /// hold `Epsilon`; `Epsilon` is dropped, and `EOF` is added when every
    /// symbol may vanish (in particular for the empty sequence).
    pub fn get_by(&self, relems: &[RuleElem]) -> (res: Vec<RuleElem>)
        requires
            self.wf(),
            forall|j: int| 0 <= j < relems@.len() ==> (#[trigger] relems@[j]).known_in(self.nt(), self.nn()),
        ensures
            res@.no_duplicates(),
            forall|e: RuleElem| #[trigger]
                res@.contains(e) <==> (in_universe(e, self.nt()) && seq_first(
                    self@,
                    self.nt(),
                    relems@,
                    elem_index(e, self.nt()),
                )),
    {
        let row = self.get_by_row(relems, 0);
        let v = elems_of_row(&row, self.num_terms);
        assert forall|e: RuleElem| #[trigger] v@.contains(e) <==> (in_universe(e, self.nt()) && seq_first(
            self@,
            self.nt(),
            relems@,
            elem_index(e, self.nt()),
        )) by {
            if in_universe(e, self.nt()) {
                assert(0 <= elem_index(e, self.nt()) < self.nt() + 2);
            }
        }
        v
    }

    /// FIRST of `relems[start..]`, as `get_by` computes it.
    pub fn get_by_from(&self, relems: &[RuleElem], start: usize) -> (row: Vec<bool>)
        requires
            self.wf(),
            start <= relems@.len(),
            forall|j: int| 0 <= j < relems@.len() ==> (#[trigger] relems@[j]).known_in(self.nt(), self.nn()),
        ensures
            row@.len() == self.nt() + 2,
            forall|k: int| 0 <= k < self.nt() + 2 ==> #[trigger] row@[k] == seq_first_at(
                self@,
                self.nt(),
                relems@,
                start as int,
                k,
            ),
    {
        self.get_by_row(relems, start)
    }
}

/// `get_by` never yields `Epsilon`.
pub proof fn lemma_seq_first_no_epsilon(f: Seq<Seq<bool>>, nt: nat, s: Seq<RuleElem>, i: int)
    ensures
        !seq_first_at(f, nt, s, i, nt as int),
    decreases s.len() - i,
{
    if 0 <= i < s.len() && sym_has(f, nt, s[i], nt as int) {
        lemma_seq_first_no_epsilon(f, nt, s, i + 1);
    }
}

} // verus!
