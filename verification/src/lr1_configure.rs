//! An LR(1) table builder over items with lookahead sets, and its parser.
//!
//! Items carry sets of lookaheads, one item per rule and dot position. The
//! start item is `__top_dummy ::= . <top>` (rule index `rules.len()`, not
//! a rule of the grammar) with the lookahead `EOF`. A closure step predicts,
//! for every item `A ::= α . B β` of the items fetched last, the items
//! `B ::= . γ` with the lookaheads FIRST(the symbol after `B`), or the
//! lookaheads of the item when `B` ends the rule; items of one rule and dot
//! merge their lookaheads. The closure stops as soon as a step adds no new
//! rule and dot position. The states of the automaton are the closures of the
//! successor sets, found in breadth-first order; a successor set equal to a
//! known state (same items, same lookaheads) is that state. A cell of the
//! action table holds the reduction of the last complete item of its state
//! that has the cell's lookahead, else the shift over the cell's token, else
//! nothing; the completed start item accepts at the end of the input.
use vstd::prelude::*;
use crate::grammar::{RuleElem, RuleSet};
use crate::lr0::LR0Item;
use crate::first::{FirstSet, first_table, sym_has};
use crate::bitset::{table_count_false, table_le, table_grew, lemma_table_count_false_mono, row_le};
use crate::token::Token;
use crate::driver::{ParseEvent, EventKind, error_kind};
use crate::parser::{kinds_of, kind_at, token_at, after};
use crate::error::{DiagnosticError, ErrorBody, ParseError};

verus! {

/// An item: its rule and dot position, and its lookaheads as a row over
/// the token kinds, `Epsilon` and `EOF`.
pub type Entry = (LR0Item, Seq<bool>);

/// The right side of rule `r` of `g`, where `r == g.rules.len()` is the start
/// rule `__top_dummy ::= <top>`.
pub open spec fn orhs(g: RuleSet, r: int) -> Seq<RuleElem> {
    if r == g.rules@.len() {
        seq![RuleElem::NonTerm(g.top)]
    } else {
        g.rules@[r].rhs@
    }
}

/// The rule and dot position exist.
pub open spec fn ocore_valid(g: RuleSet, c: LR0Item) -> bool {
    c.rule <= g.rules@.len() && c.dot_pos <= orhs(g, c.rule as int).len()
}

/// The symbol after the dot, if any.
pub open spec fn onext(g: RuleSet, c: LR0Item) -> Option<RuleElem> {
    if c.dot_pos < orhs(g, c.rule as int).len() {
        Some(orhs(g, c.rule as int)[c.dot_pos as int])
    } else {
        None
    }
}

/// FIRST of one symbol, as a row.
pub open spec fn first_row(f: Seq<Seq<bool>>, nt: nat, x: RuleElem) -> Seq<bool> {
    Seq::new(nt + 2, |k: int| sym_has(f, nt, x, k))
}

/// The lookaheads that item `c` with lookaheads `las` hands to the items it
/// predicts: FIRST of the symbol after the next one, or `las` when the next
/// symbol ends the rule.
pub open spec fn oaf(g: RuleSet, c: LR0Item, las: Seq<bool>) -> Seq<bool> {
    if c.dot_pos + 1 < orhs(g, c.rule as int).len() {
        first_row(first_table(g), g.nt(), orhs(g, c.rule as int)[c.dot_pos + 1])
    } else {
        las
    }
}

pub open spec fn or_rows(a: Seq<bool>, b: Seq<bool>) -> Seq<bool> {
    Seq::new(a.len(), |k: int| a[k] || b[k])
}

/// Some entry of `s` has the rule and dot position `c`.
pub open spec fn has_core(s: Seq<Entry>, c: LR0Item) -> bool {
    exists|j: int| 0 <= j < s.len() && s[j].0 == c
}

pub open spec fn core_at(s: Seq<Entry>, c: LR0Item) -> int {
    choose|j: int| 0 <= j < s.len() && s[j].0 == c
}

/// No two entries have the same rule and dot position.
pub open spec fn distinct_cores(s: Seq<Entry>) -> bool {
    forall|a: int, b: int| 0 <= a < s.len() && 0 <= b < s.len() && a != b ==> s[a].0 != s[b].0
}

/// `s` with the item `(c, row)` added: its lookaheads join those of the
/// entry of `c`, or it is appended.
pub open spec fn add_entry(s: Seq<Entry>, c: LR0Item, row: Seq<bool>) -> Seq<Entry> {
    if has_core(s, c) {
        let j = core_at(s, c);
        s.update(j, (c, or_rows(s[j].1, row)))
    } else {
        s.push((c, row))
    }
}

/// `s` with the items predicted by `p` from the first `n` rules added.
pub open spec fn predict_rules(g: RuleSet, s: Seq<Entry>, p: Entry, n: nat) -> Seq<Entry>
    decreases n,
{
    if n == 0 {
        s
    } else {
        let s1 = predict_rules(g, s, p, (n - 1) as nat);
        if onext(g, p.0) == Some(RuleElem::NonTerm(g.rules@[n - 1].lhs)) {
            add_entry(s1, LR0Item { rule: (n - 1) as usize, dot_pos: 0 }, oaf(g, p.0, p.1))
        } else {
            s1
        }
    }
}

/// The items predicted by the items of `f`, merged.
pub open spec fn predicted(g: RuleSet, f: Seq<Entry>) -> Seq<Entry>
    decreases f.len(),
{
    if f.len() == 0 {
        seq![]
    } else {
        predict_rules(g, predicted(g, f.drop_last()), f.last(), g.rules@.len())
    }
}

/// The items of `r` and `n`, merged.
pub open spec fn merge_all(r: Seq<Entry>, n: Seq<Entry>) -> Seq<Entry>
    decreases n.len(),
{
    if n.len() == 0 {
        r
    } else {
        let m = merge_all(r, n.drop_last());
        add_entry(m, n.last().0, n.last().1)
    }
}

/// Which rule and dot positions have an entry in `s`: row `r` (for the
/// rules and the start rule), column `d`.
pub open spec fn present_o(g: RuleSet, s: Seq<Entry>) -> Seq<Seq<bool>> {
    Seq::new(
        g.rules@.len() + 1,
        |r: int| Seq::new(orhs(g, r).len() + 1, |d: int| has_core(s, LR0Item { rule: r as usize, dot_pos: d as usize })),
    )
}

pub proof fn lemma_add_entry(s: Seq<Entry>, c: LR0Item, row: Seq<bool>)
    ensures
        forall|c2: LR0Item| has_core(s, c2) ==> #[trigger] has_core(add_entry(s, c, row), c2),
        has_core(add_entry(s, c, row), c),
        forall|c2: LR0Item| #[trigger] has_core(add_entry(s, c, row), c2) ==> has_core(s, c2) || c2 == c,
        add_entry(s, c, row).len() == s.len() || (add_entry(s, c, row).len() == s.len() + 1 && !has_core(s, c)),
        add_entry(s, c, row).len() >= s.len(),
{
    if has_core(s, c) {
        let j = core_at(s, c);
        let t = s.update(j, (c, or_rows(s[j].1, row)));
        assert forall|c2: LR0Item| has_core(s, c2) implies #[trigger] has_core(t, c2) by {
            let q = choose|q: int| 0 <= q < s.len() && s[q].0 == c2;
            assert(t[q].0 == c2);
        }
        assert(t[j].0 == c);
        assert forall|c2: LR0Item| #[trigger] has_core(t, c2) implies has_core(s, c2) || c2 == c by {
            let q = choose|q: int| 0 <= q < t.len() && t[q].0 == c2;
            if q != j {
                assert(s[q].0 == c2);
            }
        }
    } else {
        let t = s.push((c, row));
        assert forall|c2: LR0Item| has_core(s, c2) implies #[trigger] has_core(t, c2) by {
            let q = choose|q: int| 0 <= q < s.len() && s[q].0 == c2;
            assert(t[q].0 == c2);
        }
        assert(t[s.len() as int].0 == c);
        assert forall|c2: LR0Item| #[trigger] has_core(t, c2) implies has_core(s, c2) || c2 == c by {
            let q = choose|q: int| 0 <= q < t.len() && t[q].0 == c2;
            if q < s.len() {
                assert(s[q].0 == c2);
            }
        }
    }
}

pub proof fn lemma_merge_all(r: Seq<Entry>, n: Seq<Entry>)
    ensures
        forall|c: LR0Item| has_core(r, c) ==> #[trigger] has_core(merge_all(r, n), c),
        forall|c: LR0Item| #[trigger] has_core(merge_all(r, n), c) ==> has_core(r, c) || has_core(n, c),
        merge_all(r, n).len() >= r.len(),
        merge_all(r, n).len() != r.len() ==> exists|c: LR0Item| #[trigger] has_core(merge_all(r, n), c) && !has_core(r, c),
    decreases n.len(),
{
    if n.len() > 0 {
        let m = merge_all(r, n.drop_last());
        lemma_merge_all(r, n.drop_last());
        lemma_add_entry(m, n.last().0, n.last().1);
        let t = merge_all(r, n);
        assert forall|c: LR0Item| #[trigger] has_core(t, c) implies has_core(r, c) || has_core(n, c) by {
            if has_core(m, c) {
                if has_core(n.drop_last(), c) {
                    let q = choose|q: int| 0 <= q < n.drop_last().len() && n.drop_last()[q].0 == c;
                    assert(n[q].0 == c);
                }
            } else {
                assert(c == n.last().0);
                assert(n[n.len() - 1].0 == c);
            }
        }
        if t.len() != r.len() {
            if m.len() != r.len() {
                let c = choose|c: LR0Item| #[trigger] has_core(m, c) && !has_core(r, c);
                assert(has_core(t, c));
            } else {
                assert(!has_core(m, n.last().0));
                assert(has_core(t, n.last().0));
                assert(!has_core(r, n.last().0));
            }
        }
    }
}

pub proof fn lemma_predict_rules(g: RuleSet, s: Seq<Entry>, p: Entry, n: nat)
    requires
        n <= g.rules@.len(),
    ensures
        forall|c: LR0Item| #[trigger] has_core(predict_rules(g, s, p, n), c) ==> has_core(s, c) || (c.dot_pos == 0 && c.rule < g.rules@.len()),
        forall|c: LR0Item| has_core(s, c) ==> #[trigger] has_core(predict_rules(g, s, p, n), c),
    decreases n,
{
    if n > 0 {
        let s1 = predict_rules(g, s, p, (n - 1) as nat);
        lemma_predict_rules(g, s, p, (n - 1) as nat);
        lemma_add_entry(s1, LR0Item { rule: (n - 1) as usize, dot_pos: 0 }, oaf(g, p.0, p.1));
    }
}

pub proof fn lemma_predicted_cores(g: RuleSet, f: Seq<Entry>)
    ensures
        forall|c: LR0Item| #[trigger] has_core(predicted(g, f), c) ==> c.dot_pos == 0 && c.rule < g.rules@.len(),
    decreases f.len(),
{
    if f.len() > 0 {
        lemma_predicted_cores(g, f.drop_last());
        lemma_predict_rules(g, predicted(g, f.drop_last()), f.last(), g.rules@.len());
    }
}

/// A merge that adds a new rule and dot position of a predicted item
/// leaves fewer positions without an entry.
pub proof fn lemma_closure_progress(g: RuleSet, r: Seq<Entry>, f: Seq<Entry>)
    requires
        merge_all(r, predicted(g, f)).len() != r.len(),
    ensures
        table_count_false(present_o(g, merge_all(r, predicted(g, f)))) < table_count_false(present_o(g, r)),
{
    let n = predicted(g, f);
    let r2 = merge_all(r, n);
    lemma_merge_all(r, n);
    lemma_predicted_cores(g, f);
    let a = present_o(g, r);
    let b = present_o(g, r2);
    assert(table_le(a, b)) by {
        assert forall|x: int| 0 <= x < a.len() implies row_le(#[trigger] a[x], b[x]) by {
            assert forall|d: int| 0 <= d < a[x].len() && #[trigger] a[x][d] implies b[x][d] by {
                assert(has_core(r, LR0Item { rule: x as usize, dot_pos: d as usize }));
            }
        }
    }
    let c = choose|c: LR0Item| #[trigger] has_core(r2, c) && !has_core(r, c);
    assert(has_core(n, c));
    assert(c.dot_pos == 0 && c.rule < g.rules@.len());
    assert(!a[c.rule as int][0] && b[c.rule as int][0]);
    assert(table_grew(a, b));
    lemma_table_count_false_mono(a, b);
}

/// The closure of the items `r`, the items `f` having been fetched last:
/// predict from `f` and merge; stop when no new rule and dot position came.
pub open spec fn oclosure(g: RuleSet, r: Seq<Entry>, f: Seq<Entry>) -> Seq<Entry>
    decreases table_count_false(present_o(g, r)),
{
    let n = predicted(g, f);
    let r2 = merge_all(r, n);
    if r2.len() == r.len() {
        r2
    } else {
        proof {
            lemma_closure_progress(g, r, f);
        }
        oclosure(g, r2, n)
    }
}

/// An item of this builder: rule, dot position, and the
/// lookaheads as a row over the token kinds, `Epsilon` and `EOF`.
pub struct LRItem {
    pub rule: usize,
    pub dot_pos: usize,
    pub la_tokens: Vec<bool>,
}

pub open spec fn entry_of(it: LRItem) -> Entry {
    (LR0Item { rule: it.rule, dot_pos: it.dot_pos }, it.la_tokens@)
}

pub open spec fn entries(v: Seq<LRItem>) -> Seq<Entry> {
    Seq::new(v.len(), |i: int| entry_of(v[i]))
}

/// Every row has width `w`.
pub open spec fn rows_wide(s: Seq<Entry>, w: nat) -> bool {
    forall|i: int| 0 <= i < s.len() ==> (#[trigger] s[i]).1.len() == w
}

/// The entries name rules and dot positions that exist.
pub open spec fn cores_valid(g: RuleSet, s: Seq<Entry>) -> bool {
    forall|c: LR0Item| #[trigger] has_core(s, c) ==> ocore_valid(g, c)
}

/// The items are a well-formed item set of `g`.
pub open spec fn items_ok(g: RuleSet, s: Seq<Entry>) -> bool {
    distinct_cores(s) && rows_wide(s, g.nt() + 2) && cores_valid(g, s)
}

fn copy_bools(v: &Vec<bool>) -> (res: Vec<bool>)
    ensures
        res@ == v@,
{
    let mut res: Vec<bool> = Vec::new();
    let mut i: usize = 0;
    while i < v.len()
        invariant
            i <= v@.len(),
            res@ == v@.subrange(0, i as int),
        decreases v@.len() - i,
    {
        res.push(v[i]);
        i = i + 1;
    }
    res
}

/// The length of the right side of rule `r` (the start rule when
/// `r == rules.len()`).
fn orhs_len(g: &RuleSet, r: usize) -> (res: usize)
    requires
        r <= g.rules@.len(),
    ensures
        res == orhs(*g, r as int).len(),
{
    if r == g.rules.len() {
        1
    } else {
        g.rules[r].rhs.len()
    }
}

/// Symbol `d` of the right side of rule `r`.
fn orhs_at(g: &RuleSet, r: usize, d: usize) -> (res: RuleElem)
    requires
        g.wf(),
        r <= g.rules@.len(),
        d < orhs(*g, r as int).len(),
    ensures
        res == orhs(*g, r as int)[d as int],
        res.known_in(g.nt(), g.nn()),
{
    if r == g.rules.len() {
        RuleElem::NonTerm(g.top)
    } else {
        assert(g.rule_wf(r as int));
        assert(g.rules@[r as int].rhs@[d as int].valid_in(g.nt(), g.nn()));
        g.rules[r].rhs[d]
    }
}

/// FIRST of one symbol, as a row.
fn first_row_exec(g: &RuleSet, first: &FirstSet, x: RuleElem) -> (res: Vec<bool>)
    requires
        g.wf(),
        first.wf(),
        first.nt() == g.nt(),
        first.nn() == g.nn(),
        first@ == first_table(*g),
        x.known_in(g.nt(), g.nn()),
    ensures
        res@ == first_row(first_table(*g), g.nt(), x),
{
    let w = g.num_terms + 2;
    let mut res: Vec<bool> = Vec::new();
    let mut k: usize = 0;
    while k < w
        invariant
            w == g.nt() + 2,
            first.wf(),
            first.nt() == g.nt(),
            first.nn() == g.nn(),
            first@ == first_table(*g),
            x.known_in(g.nt(), g.nn()),
            k <= w,
            res@.len() == k,
            forall|q: int| 0 <= q < k ==> #[trigger] res@[q] == sym_has(first_table(*g), g.nt(), x, q),
        decreases w - k,
    {
        res.push(first.contains(x, k));
        k = k + 1;
    }
    assert(res@ == first_row(first_table(*g), g.nt(), x));
    res
}

/// Adds the item `(c, row)` to `s`.
fn add_entry_exec(s: &mut Vec<LRItem>, c: LR0Item, row: Vec<bool>, w: usize)
    requires
        distinct_cores(entries(old(s)@)),
        rows_wide(entries(old(s)@), w as nat),
        row@.len() == w,
    ensures
        entries(final(s)@) == add_entry(entries(old(s)@), c, row@),
        distinct_cores(entries(final(s)@)),
        rows_wide(entries(final(s)@), w as nat),
{
    let ghost e0 = entries(s@);
    let mut j: usize = 0;
    while j < s.len()
        invariant
            e0 == entries(s@),
            j <= s@.len(),
            forall|q: int| 0 <= q < j ==> e0[q].0 != c,
        ensures
            j <= s@.len(),
            forall|q: int| 0 <= q < j ==> e0[q].0 != c,
            j < s@.len() ==> e0[j as int].0 == c,
        decreases s@.len() - j,
    {
        if s[j].rule == c.rule && s[j].dot_pos == c.dot_pos {
            assert(e0[j as int].0 == c);
            break;
        }
        assert(e0[j as int].0 != c);
        j = j + 1;
    }
    if j < s.len() {
        proof {
            assert(e0[j as int].0 == c);
            assert(has_core(e0, c));
            let cj = core_at(e0, c);
            assert(cj == j);
        }
        let old_row = copy_bools(&s[j].la_tokens);
        let mut new_row: Vec<bool> = Vec::new();
        let mut k: usize = 0;
        while k < old_row.len()
            invariant
                k <= old_row@.len(),
                old_row@.len() == w,
                row@.len() == w,
                new_row@.len() == k,
                forall|q: int| 0 <= q < k ==> #[trigger] new_row@[q] == (old_row@[q] || row@[q]),
            decreases old_row@.len() - k,
        {
            new_row.push(old_row[k] || row[k]);
            k = k + 1;
        }
        assert(new_row@ == or_rows(old_row@, row@));
        let it = LRItem { rule: c.rule, dot_pos: c.dot_pos, la_tokens: new_row };
        s.set(j, it);
        proof {
            assert(entries(s@) == e0.update(j as int, (c, or_rows(e0[j as int].1, row@))));
            assert forall|a: int, b: int| 0 <= a < entries(s@).len() && 0 <= b < entries(s@).len() && a != b implies entries(s@)[a].0 != entries(s@)[b].0 by {
                assert(e0[a].0 == entries(s@)[a].0);
                assert(e0[b].0 == entries(s@)[b].0);
            }
        }
    } else {
        proof {
            assert(!has_core(e0, c));
        }
        s.push(LRItem { rule: c.rule, dot_pos: c.dot_pos, la_tokens: row });
        proof {
            assert(entries(s@) == e0.push((c, row@)));
            assert forall|a: int, b: int| 0 <= a < entries(s@).len() && 0 <= b < entries(s@).len() && a != b implies entries(s@)[a].0 != entries(s@)[b].0 by {
                if a < e0.len() && b < e0.len() {
                    assert(e0[a].0 != e0[b].0);
                } else if a == e0.len() {
                    assert(e0[b].0 != c);
                } else {
                    assert(e0[a].0 != c);
                }
            }
        }
    }
}

/// Adds to `s` the items that `p` predicts.
fn predict_rules_exec(g: &RuleSet, first: &FirstSet, s: &mut Vec<LRItem>, p: &LRItem)
    requires
        g.wf(),
        first.wf(),
        first.nt() == g.nt(),
        first.nn() == g.nn(),
        first@ == first_table(*g),
        items_ok(*g, entries(old(s)@)),
        ocore_valid(*g, entry_of(*p).0),
        p.la_tokens@.len() == g.nt() + 2,
    ensures
        entries(final(s)@) == predict_rules(*g, entries(old(s)@), entry_of(*p), g.rules@.len()),
        items_ok(*g, entries(final(s)@)),
{
    let ghost s0 = entries(s@);
    let ghost pe = entry_of(*p);
    let w = g.num_terms + 2;
    let len = orhs_len(g, p.rule);
    if p.dot_pos >= len {
        proof {
            lemma_predict_rules_none(*g, s0, pe, g.rules@.len());
        }
        return;
    }
    let x = orhs_at(g, p.rule, p.dot_pos);
    let a = match x {
        RuleElem::NonTerm(a) => a,
        _ => {
            proof {
                lemma_predict_rules_none(*g, s0, pe, g.rules@.len());
            }
            return;
        },
    };
    let af = if p.dot_pos + 1 < len {
        let y = orhs_at(g, p.rule, p.dot_pos + 1);
        first_row_exec(g, first, y)
    } else {
        copy_bools(&p.la_tokens)
    };
    assert(af@ == oaf(*g, pe.0, pe.1));
    let mut r: usize = 0;
    while r < g.rules.len()
        invariant
            g.wf(),
            w == g.nt() + 2,
            af@.len() == w,
            af@ == oaf(*g, pe.0, pe.1),
            onext(*g, pe.0) == Some(RuleElem::NonTerm(a)),
            r <= g.rules@.len(),
            entries(s@) == predict_rules(*g, s0, pe, r as nat),
            items_ok(*g, entries(s@)),
        decreases g.rules@.len() - r,
    {
        if g.rules[r].lhs == a {
            let ghost before = entries(s@);
            let c = LR0Item { rule: r, dot_pos: 0 };
            add_entry_exec(s, c, copy_bools(&af), w);
            proof {
                lemma_add_entry(before, c, af@);
                assert(g.rule_wf(r as int));
                assert(ocore_valid(*g, c));
            }
        }
        r = r + 1;
    }
}

proof fn lemma_predict_rules_none(g: RuleSet, s: Seq<Entry>, p: Entry, n: nat)
    requires
        !(onext(g, p.0) matches Some(RuleElem::NonTerm(_))),
    ensures
        predict_rules(g, s, p, n) == s,
    decreases n,
{
    if n > 0 {
        lemma_predict_rules_none(g, s, p, (n - 1) as nat);
    }
}

/// The items that the items of `f` predict, merged.
fn predicted_exec(g: &RuleSet, first: &FirstSet, f: &Vec<LRItem>) -> (res: Vec<LRItem>)
    requires
        g.wf(),
        first.wf(),
        first.nt() == g.nt(),
        first.nn() == g.nn(),
        first@ == first_table(*g),
        rows_wide(entries(f@), g.nt() + 2),
        forall|i: int| 0 <= i < f@.len() ==> ocore_valid(*g, (#[trigger] entries(f@)[i]).0),
    ensures
        entries(res@) == predicted(*g, entries(f@)),
        items_ok(*g, entries(res@)),
{
    let mut res: Vec<LRItem> = Vec::new();
    let mut i: usize = 0;
    assert(entries(res@) == predicted(*g, entries(f@).subrange(0, 0)));
    while i < f.len()
        invariant
            g.wf(),
            first.wf(),
            first.nt() == g.nt(),
            first.nn() == g.nn(),
            first@ == first_table(*g),
            rows_wide(entries(f@), g.nt() + 2),
            forall|i: int| 0 <= i < f@.len() ==> ocore_valid(*g, (#[trigger] entries(f@)[i]).0),
            i <= f@.len(),
            entries(res@) == predicted(*g, entries(f@).subrange(0, i as int)),
            items_ok(*g, entries(res@)),
        decreases f@.len() - i,
    {
        let ghost pre = entries(f@).subrange(0, i as int);
        let ghost cur = entries(f@).subrange(0, i + 1);
        assert(cur.drop_last() == pre);
        assert(cur.last() == entry_of(f@[i as int]));
        assert(entries(f@)[i as int] == entry_of(f@[i as int]));
        assert(f@[i as int].la_tokens@.len() == g.nt() + 2);
        predict_rules_exec(g, first, &mut res, &f[i]);
        i = i + 1;
    }
    assert(entries(f@).subrange(0, f@.len() as int) == entries(f@));
    res
}

/// Merges the items `n` into `r`.
fn merge_all_exec(g: &RuleSet, r: &mut Vec<LRItem>, n: &Vec<LRItem>)
    requires
        g.wf(),
        items_ok(*g, entries(old(r)@)),
        items_ok(*g, entries(n@)),
    ensures
        entries(final(r)@) == merge_all(entries(old(r)@), entries(n@)),
        items_ok(*g, entries(final(r)@)),
{
    let ghost r0 = entries(r@);
    let w = g.num_terms + 2;
    let mut i: usize = 0;
    assert(entries(n@).subrange(0, 0).len() == 0);
    while i < n.len()
        invariant
            g.wf(),
            w == g.nt() + 2,
            items_ok(*g, entries(n@)),
            i <= n@.len(),
            entries(r@) == merge_all(r0, entries(n@).subrange(0, i as int)),
            items_ok(*g, entries(r@)),
        decreases n@.len() - i,
    {
        let ghost pre = entries(n@).subrange(0, i as int);
        let ghost cur = entries(n@).subrange(0, i + 1);
        assert(cur.drop_last() == pre);
        assert(cur.last() == entry_of(n@[i as int]));
        let ghost before = entries(r@);
        let c = LR0Item { rule: n[i].rule, dot_pos: n[i].dot_pos };
        assert(entries(n@)[i as int] == entry_of(n@[i as int]));
        assert(has_core(entries(n@), c)) by {
            assert(entries(n@)[i as int].0 == c);
        }
        add_entry_exec(r, c, copy_bools(&n[i].la_tokens), w);
        proof {
            lemma_add_entry(before, c, n@[i as int].la_tokens@);
        }
        i = i + 1;
    }
    assert(entries(n@).subrange(0, n@.len() as int) == entries(n@));
}

/// The closure of the items `r`, the items `f` having been fetched last.
fn oclosure_exec(g: &RuleSet, first: &FirstSet, r: Vec<LRItem>, f: Vec<LRItem>) -> (res: Vec<LRItem>)
    requires
        g.wf(),
        first.wf(),
        first.nt() == g.nt(),
        first.nn() == g.nn(),
        first@ == first_table(*g),
        items_ok(*g, entries(r@)),
        items_ok(*g, entries(f@)),
    ensures
        entries(res@) == oclosure(*g, entries(r@), entries(f@)),
        items_ok(*g, entries(res@)),
{
    let ghost target = oclosure(*g, entries(r@), entries(f@));
    let mut cur = r;
    let mut fetched = f;
    loop
        invariant
            g.wf(),
            first.wf(),
            first.nt() == g.nt(),
            first.nn() == g.nn(),
            first@ == first_table(*g),
            items_ok(*g, entries(cur@)),
            items_ok(*g, entries(fetched@)),
            oclosure(*g, entries(cur@), entries(fetched@)) == target,
            target == oclosure(*g, entries(r@), entries(f@)),
        decreases table_count_false(present_o(*g, entries(cur@))),
    {
        proof {
            assert forall|i: int| 0 <= i < fetched@.len() implies ocore_valid(*g, (#[trigger] entries(fetched@)[i]).0) by {
                assert(entries(fetched@)[i].0 == entries(fetched@)[i].0);
                assert(has_core(entries(fetched@), entries(fetched@)[i].0));
            }
        }
        let n = predicted_exec(g, first, &fetched);
        let before = cur.len();
        let ghost r_old = entries(cur@);
        let ghost f_old = entries(fetched@);
        merge_all_exec(g, &mut cur, &n);
        if cur.len() == before {
            proof {
                assert(entries(cur@) == oclosure(*g, r_old, f_old));
            }
            return cur;
        }
        proof {
            lemma_closure_progress(*g, r_old, f_old);
        }
        fetched = n;
    }
}

/// The items of `s` whose next symbol is `x`, with the dot moved over it.
pub open spec fn advance(g: RuleSet, s: Seq<Entry>, x: RuleElem) -> Seq<Entry>
    decreases s.len(),
{
    if s.len() == 0 {
        seq![]
    } else {
        let rest = advance(g, s.drop_last(), x);
        let e = s.last();
        if onext(g, e.0) == Some(x) {
            rest.push((LR0Item { rule: e.0.rule, dot_pos: (e.0.dot_pos + 1) as usize }, e.1))
        } else {
            rest
        }
    }
}

/// The state that the items `s` lead to over `x`: the closure of the
/// advanced items.
pub open spec fn ogoto(g: RuleSet, s: Seq<Entry>, x: RuleElem) -> Seq<Entry> {
    oclosure(g, advance(g, s, x), advance(g, s, x))
}

/// A right side is no longer than a vector can be.
pub proof fn lemma_orhs_len_bound(g: RuleSet, r: int)
    requires
        0 <= r <= g.rules@.len(),
    ensures
        orhs(g, r).len() <= usize::MAX,
{
    if r < g.rules@.len() {
        assert(g.rules@[r].rhs.len() == g.rules@[r].rhs@.len()) by {
            vstd::std_specs::vec::axiom_spec_len(&g.rules@[r].rhs);
        }
    }
}

pub proof fn lemma_advance(g: RuleSet, s: Seq<Entry>, x: RuleElem)
    requires
        items_ok(g, s),
    ensures
        items_ok(g, advance(g, s, x)),
        forall|c: LR0Item| #[trigger] has_core(advance(g, s, x), c) ==> c.dot_pos > 0 && has_core(
            s,
            LR0Item { rule: c.rule, dot_pos: (c.dot_pos - 1) as usize },
        ),
        (exists|j: int| 0 <= j < s.len() && onext(g, #[trigger] s[j].0) == Some(x)) ==> advance(g, s, x).len() > 0,
    decreases s.len(),
{
    if s.len() > 0 {
        let p = s.drop_last();
        assert(items_ok(g, p)) by {
            assert forall|c: LR0Item| #[trigger] has_core(p, c) implies ocore_valid(g, c) by {
                let q = choose|q: int| 0 <= q < p.len() && p[q].0 == c;
                assert(s[q].0 == c);
                assert(has_core(s, c));
            }
            assert forall|i: int| 0 <= i < p.len() implies (#[trigger] p[i]).1.len() == g.nt() + 2 by {
                assert(p[i] == s[i]);
            }
            assert forall|a: int, b: int| 0 <= a < p.len() && 0 <= b < p.len() && a != b implies p[a].0 != p[b].0 by {
                assert(p[a] == s[a] && p[b] == s[b]);
            }
        }
        lemma_advance(g, p, x);
        let rest = advance(g, p, x);
        let e = s.last();
        if onext(g, e.0) == Some(x) {
            let c0 = LR0Item { rule: e.0.rule, dot_pos: (e.0.dot_pos + 1) as usize };
            let t = rest.push((c0, e.1));
            assert(has_core(s, e.0)) by {
                assert(s[s.len() - 1].0 == e.0);
            }
            lemma_orhs_len_bound(g, e.0.rule as int);
            assert(c0.dot_pos == e.0.dot_pos + 1);
            assert(!has_core(rest, c0)) by {
                if has_core(rest, c0) {
                    let pc = LR0Item { rule: c0.rule, dot_pos: (c0.dot_pos - 1) as usize };
                    assert(pc == e.0);
                    let q = choose|q: int| 0 <= q < p.len() && p[q].0 == pc;
                    assert(s[q].0 == s[s.len() - 1].0);
                }
            }
            assert forall|c: LR0Item| #[trigger] has_core(t, c) implies c.dot_pos > 0 && has_core(
                s,
                LR0Item { rule: c.rule, dot_pos: (c.dot_pos - 1) as usize },
            ) by {
                let q = choose|q: int| 0 <= q < t.len() && t[q].0 == c;
                if q < rest.len() {
                    assert(rest[q].0 == c);
                    assert(has_core(rest, c));
                    let pc = LR0Item { rule: c.rule, dot_pos: (c.dot_pos - 1) as usize };
                    let q2 = choose|q2: int| 0 <= q2 < p.len() && p[q2].0 == pc;
                    assert(s[q2].0 == pc);
                } else {
                    assert(c == c0);
                    assert(LR0Item { rule: c.rule, dot_pos: (c.dot_pos - 1) as usize } == e.0);
                }
            }
            assert(items_ok(g, t)) by {
                assert forall|c: LR0Item| #[trigger] has_core(t, c) implies ocore_valid(g, c) by {
                    let q = choose|q: int| 0 <= q < t.len() && t[q].0 == c;
                    if q < rest.len() {
                        assert(rest[q].0 == c);
                        assert(has_core(rest, c));
                    } else {
                        assert(c == c0);
                        assert(ocore_valid(g, e.0));
                    }
                }
                assert forall|i: int| 0 <= i < t.len() implies (#[trigger] t[i]).1.len() == g.nt() + 2 by {
                    if i < rest.len() {
                        assert(t[i] == rest[i]);
                    } else {
                        assert(s[s.len() - 1].1.len() == g.nt() + 2);
                    }
                }
                assert forall|a: int, b: int| 0 <= a < t.len() && 0 <= b < t.len() && a != b implies t[a].0 != t[b].0 by {
                    if a < rest.len() && b < rest.len() {
                        assert(t[a] == rest[a] && t[b] == rest[b]);
                    } else if a < rest.len() {
                        assert(t[a] == rest[a]);
                        assert(rest[a].0 != c0) by {
                            if rest[a].0 == c0 {
                                assert(has_core(rest, c0));
                            }
                        }
                    } else {
                        assert(t[b] == rest[b]);
                        assert(rest[b].0 != c0) by {
                            if rest[b].0 == c0 {
                                assert(has_core(rest, c0));
                            }
                        }
                    }
                }
            }
        } else {
            assert forall|c: LR0Item| #[trigger] has_core(rest, c) implies c.dot_pos > 0 && has_core(
                s,
                LR0Item { rule: c.rule, dot_pos: (c.dot_pos - 1) as usize },
            ) by {
                let pc = LR0Item { rule: c.rule, dot_pos: (c.dot_pos - 1) as usize };
                let q2 = choose|q2: int| 0 <= q2 < p.len() && p[q2].0 == pc;
                assert(s[q2].0 == pc);
            }
            if exists|j: int| 0 <= j < s.len() && onext(g, #[trigger] s[j].0) == Some(x) {
                let j = choose|j: int| 0 <= j < s.len() && onext(g, #[trigger] s[j].0) == Some(x);
                assert(j < p.len());
                assert(p[j] == s[j]);
            }
        }
    }
}

/// The symbol after the dot of rule `r` at `d`.
fn onext_exec(g: &RuleSet, r: usize, d: usize) -> (res: Option<RuleElem>)
    requires
        g.wf(),
        ocore_valid(*g, LR0Item { rule: r, dot_pos: d }),
    ensures
        res == onext(*g, LR0Item { rule: r, dot_pos: d }),
        res matches Some(x) ==> x.known_in(g.nt(), g.nn()),
        orhs(*g, r as int).len() <= usize::MAX,
{
    if d < orhs_len(g, r) {
        Some(orhs_at(g, r, d))
    } else {
        None
    }
}

fn copy_item(it: &LRItem) -> (res: LRItem)
    ensures
        entry_of(res) == entry_of(*it),
{
    LRItem { rule: it.rule, dot_pos: it.dot_pos, la_tokens: copy_bools(&it.la_tokens) }
}

fn copy_items(v: &Vec<LRItem>) -> (res: Vec<LRItem>)
    ensures
        entries(res@) == entries(v@),
{
    let mut res: Vec<LRItem> = Vec::new();
    let mut i: usize = 0;
    while i < v.len()
        invariant
            i <= v@.len(),
            res@.len() == i,
            entries(res@) == entries(v@).subrange(0, i as int),
        decreases v@.len() - i,
    {
        let ghost before = res@;
        res.push(copy_item(&v[i]));
        proof {
            assert forall|k: int| 0 <= k < i + 1 implies entries(res@)[k] == entries(v@).subrange(0, i + 1)[k] by {
                if k < i {
                    assert(res@[k] == before[k]);
                    assert(entries(before)[k] == entries(v@).subrange(0, i as int)[k]);
                }
            }
            assert(entries(res@) =~= entries(v@).subrange(0, i + 1));
        }
        i = i + 1;
    }
    assert(entries(v@).subrange(0, v@.len() as int) == entries(v@));
    res
}

/// The items of `s` whose next symbol is `x`, with the dot moved over it.
fn advance_exec(g: &RuleSet, s: &Vec<LRItem>, x: RuleElem) -> (res: Vec<LRItem>)
    requires
        g.wf(),
        items_ok(*g, entries(s@)),
    ensures
        entries(res@) == advance(*g, entries(s@), x),
{
    let mut res: Vec<LRItem> = Vec::new();
    let mut i: usize = 0;
    while i < s.len()
        invariant
            g.wf(),
            items_ok(*g, entries(s@)),
            i <= s@.len(),
            entries(res@) == advance(*g, entries(s@).subrange(0, i as int), x),
        decreases s@.len() - i,
    {
        let ghost pre = entries(s@).subrange(0, i as int);
        let ghost cur = entries(s@).subrange(0, i + 1);
        assert(cur.drop_last() == pre);
        assert(cur.last() == entry_of(s@[i as int]));
        assert(entries(s@)[i as int] == entry_of(s@[i as int]));
        assert(has_core(entries(s@), entries(s@)[i as int].0));
        let nx = onext_exec(g, s[i].rule, s[i].dot_pos);
        if nx == Some(x) {
            res.push(LRItem { rule: s[i].rule, dot_pos: s[i].dot_pos + 1, la_tokens: copy_bools(&s[i].la_tokens) });
            assert(entries(res@) == advance(*g, cur, x));
        }
        i = i + 1;
    }
    assert(entries(s@).subrange(0, s@.len() as int) == entries(s@));
    res
}

/// The items `a` and `b` are the same set of items, lookaheads included.
pub open spec fn entry_set_eq(a: Seq<Entry>, b: Seq<Entry>) -> bool {
    &&& forall|e: Entry| #[trigger] a.contains(e) ==> b.contains(e)
    &&& forall|e: Entry| #[trigger] b.contains(e) ==> a.contains(e)
}

/// The item sets of the states.
pub open spec fn sview(v: Seq<Vec<LRItem>>) -> Seq<Seq<Entry>> {
    Seq::new(v.len(), |i: int| entries(v[i]@))
}

fn same_row(a: &Vec<bool>, b: &Vec<bool>) -> (res: bool)
    ensures
        res == (a@ == b@),
{
    if a.len() != b.len() {
        return false;
    }
    let mut k: usize = 0;
    while k < a.len()
        invariant
            a@.len() == b@.len(),
            k <= a@.len(),
            forall|q: int| 0 <= q < k ==> a@[q] == b@[q],
        decreases a@.len() - k,
    {
        if a[k] != b[k] {
            return false;
        }
        k = k + 1;
    }
    assert(a@ =~= b@);
    true
}

/// Whether the item `it` (lookaheads included) is one of `v`.
fn item_in(it: &LRItem, v: &Vec<LRItem>) -> (res: bool)
    ensures
        res == entries(v@).contains(entry_of(*it)),
{
    let mut i: usize = 0;
    while i < v.len()
        invariant
            i <= v@.len(),
            forall|q: int| 0 <= q < i ==> entries(v@)[q] != entry_of(*it),
        decreases v@.len() - i,
    {
        if v[i].rule == it.rule && v[i].dot_pos == it.dot_pos && same_row(&v[i].la_tokens, &it.la_tokens) {
            assert(entries(v@)[i as int] == entry_of(*it));
            return true;
        }
        assert(entries(v@)[i as int] == entry_of(v@[i as int]));
        i = i + 1;
    }
    false
}

/// Whether every item of `a` is one of `b`.
fn items_subset(a: &Vec<LRItem>, b: &Vec<LRItem>) -> (res: bool)
    ensures
        res == (forall|e: Entry| #[trigger] entries(a@).contains(e) ==> entries(b@).contains(e)),
{
    let mut i: usize = 0;
    while i < a.len()
        invariant
            i <= a@.len(),
            forall|q: int| 0 <= q < i ==> entries(b@).contains(#[trigger] entries(a@)[q]),
        decreases a@.len() - i,
    {
        assert(entries(a@)[i as int] == entry_of(a@[i as int]));
        if !item_in(&a[i], b) {
            assert(entries(a@).contains(entries(a@)[i as int]));
            return false;
        }
        i = i + 1;
    }
    assert forall|e: Entry| #[trigger] entries(a@).contains(e) implies entries(b@).contains(e) by {
        let q = choose|q: int| 0 <= q < entries(a@).len() && entries(a@)[q] == e;
    }
    true
}

/// Whether `a` and `b` hold the same items, lookaheads included.
fn same_items(a: &Vec<LRItem>, b: &Vec<LRItem>) -> (res: bool)
    ensures
        res == entry_set_eq(entries(a@), entries(b@)),
{
    items_subset(a, b) && items_subset(b, a)
}

/// The index of the state with the items of `st`, which is added when no
/// state has them.
fn find_or_add_state(states: &mut Vec<Vec<LRItem>>, st: Vec<LRItem>) -> (j: usize)
    ensures
        j < final(states)@.len(),
        entry_set_eq(sview(final(states)@)[j as int], entries(st@)),
        final(states)@.len() == old(states)@.len() || final(states)@.len() == old(states)@.len() + 1,
        forall|q: int| 0 <= q < old(states)@.len() ==> (#[trigger] sview(final(states)@)[q]) == sview(old(states)@)[q],
        final(states)@.len() == old(states)@.len() + 1 ==> j == old(states)@.len() && sview(final(states)@)[j as int] == entries(st@)
            && forall|q: int| 0 <= q < old(states)@.len() ==> !entry_set_eq(#[trigger] sview(old(states)@)[q], entries(st@)),
{
    let mut q: usize = 0;
    while q < states.len()
        invariant
            q <= states@.len(),
            states@ == old(states)@,
            forall|p: int| 0 <= p < q ==> !entry_set_eq(#[trigger] sview(states@)[p], entries(st@)),
        decreases states@.len() - q,
    {
        if same_items(&states[q], &st) {
            return q;
        }
        q = q + 1;
    }
    let ghost old_states = states@;
    states.push(st);
    proof {
        assert forall|p: int| 0 <= p < old_states.len() implies (#[trigger] sview(states@)[p]) == sview(old_states)[p] by {
            assert(states@[p] == old_states[p]);
        }
        assert(sview(states@)[q as int] == entries(states@[q as int]@));
    }
    q
}

/// `x` stands after the dot of some item of `s`.
pub open spec fn is_next_sym(g: RuleSet, s: Seq<Entry>, x: RuleElem) -> bool {
    exists|j: int| 0 <= j < s.len() && onext(g, #[trigger] s[j].0) == Some(x)
}

/// The symbols that stand after a dot in `s`, each once, in the order of
/// their first item.
fn next_symbols(g: &RuleSet, s: &Vec<LRItem>) -> (res: Vec<RuleElem>)
    requires
        g.wf(),
        items_ok(*g, entries(s@)),
    ensures
        forall|a: int, b: int| 0 <= a < b < res@.len() ==> res@[a] != res@[b],
        forall|a: int| 0 <= a < res@.len() ==> is_next_sym(*g, entries(s@), #[trigger] res@[a]),
        forall|j: int| 0 <= j < s@.len() && (#[trigger] onext(*g, entries(s@)[j].0)) is Some ==> res@.contains(onext(*g, entries(s@)[j].0)->0),
{
    let mut res: Vec<RuleElem> = Vec::new();
    let mut i: usize = 0;
    while i < s.len()
        invariant
            g.wf(),
            items_ok(*g, entries(s@)),
            i <= s@.len(),
            forall|a: int, b: int| 0 <= a < b < res@.len() ==> res@[a] != res@[b],
            forall|a: int| 0 <= a < res@.len() ==> is_next_sym(*g, entries(s@), #[trigger] res@[a]),
            forall|j: int| 0 <= j < i && (#[trigger] onext(*g, entries(s@)[j].0)) is Some ==> res@.contains(onext(*g, entries(s@)[j].0)->0),
        decreases s@.len() - i,
    {
        assert(entries(s@)[i as int] == entry_of(s@[i as int]));
        assert(has_core(entries(s@), entries(s@)[i as int].0));
        let nx = onext_exec(g, s[i].rule, s[i].dot_pos);
        match nx {
            Some(x) => {
                let mut k: usize = 0;
                let mut found = false;
                while k < res.len()
                    invariant_except_break
                        !found,
                    invariant
                        k <= res@.len(),
                        forall|q: int| 0 <= q < k ==> res@[q] != x,
                    ensures
                        found ==> res@.contains(x),
                        !found ==> forall|q: int| 0 <= q < res@.len() ==> res@[q] != x,
                    decreases res@.len() - k,
                {
                    if res[k] == x {
                        found = true;
                        assert(res@[k as int] == x);
                        break;
                    }
                    k = k + 1;
                }
                if !found {
                    let ghost old_res = res@;
                    res.push(x);
                    proof {
                        assert forall|a: int| 0 <= a < res@.len() implies is_next_sym(*g, entries(s@), #[trigger] res@[a]) by {
                            if a < old_res.len() {
                                assert(res@[a] == old_res[a]);
                            } else {
                                assert(onext(*g, entries(s@)[i as int].0) == Some(res@[a]));
                                assert(is_next_sym(*g, entries(s@), res@[a]));
                            }
                        }
                        assert forall|j: int| 0 <= j < i + 1 && (#[trigger] onext(*g, entries(s@)[j].0)) is Some implies res@.contains(onext(*g, entries(s@)[j].0)->0) by {
                            if j < i {
                                let q = choose|q: int| 0 <= q < old_res.len() && old_res[q] == onext(*g, entries(s@)[j].0)->0;
                                assert(res@[q] == old_res[q]);
                            } else {
                                assert(res@[old_res.len() as int] == x);
                            }
                        }
                    }
                }
            },
            None => {},
        }
        i = i + 1;
    }
    res
}

/// The row that holds only `EOF`.
pub open spec fn eof_row(nt: nat) -> Seq<bool> {
    Seq::new(nt + 2, |k: int| k == nt + 1)
}

/// The start item `__top_dummy ::= . <top>` with the lookahead `EOF`.
pub open spec fn init_kernel(g: RuleSet) -> Seq<Entry> {
    seq![(LR0Item { rule: g.rules@.len() as usize, dot_pos: 0 }, eof_row(g.nt()))]
}

/// The first state: the closure of the start item.
pub open spec fn init_state(g: RuleSet) -> Seq<Entry> {
    oclosure(g, init_kernel(g), init_kernel(g))
}

/// The transitions `next` of a state with the items `s`: one per symbol
/// that stands after a dot, each to a state with the items of the
/// successor set.
pub open spec fn transitions_ok(g: RuleSet, s: Seq<Entry>, next: Seq<(RuleElem, usize)>, states: Seq<Seq<Entry>>) -> bool {
    &&& forall|a: int, b: int| 0 <= a < b < next.len() ==> next[a].0 != next[b].0
    &&& forall|a: int| 0 <= a < next.len() ==> (#[trigger] next[a]).1 < states.len()
    &&& forall|a: int| 0 <= a < next.len() ==> entry_set_eq(states[(#[trigger] next[a]).1 as int], ogoto(g, s, next[a].0))
    &&& forall|a: int| 0 <= a < next.len() ==> advance(g, s, (#[trigger] next[a]).0).len() > 0
    &&& forall|j: int| 0 <= j < s.len() && (#[trigger] onext(g, s[j].0)) is Some ==> exists|a: int|
        0 <= a < next.len() && next[a].0 == onext(g, s[j].0)->0
}

/// State `j` is the target of a transition of an earlier state.
pub open spec fn entered_from_earlier(nexts: Seq<Seq<(RuleElem, usize)>>, j: int) -> bool {
    exists|i: int, a: int| 0 <= i < j && i < nexts.len() && 0 <= a < nexts[i].len() && #[trigger] nexts[i][a].1 == j
}

/// The states and transitions are the automaton of the builder: the first
/// state is the closure of the start item, the transitions of every state
/// lead to states with the items of its successor sets, no two states hold
/// the same items, and every state but the first is entered from an
/// earlier one.
pub open spec fn o_automaton(g: RuleSet, states: Seq<Seq<Entry>>, nexts: Seq<Seq<(RuleElem, usize)>>) -> bool {
    let n = states.len();
    &&& n > 0
    &&& nexts.len() == n
    &&& states[0] == init_state(g)
    &&& forall|i: int| 0 <= i < n ==> items_ok(g, #[trigger] states[i])
    &&& forall|i: int, j: int| 0 <= i < j < n ==> !entry_set_eq(#[trigger] states[i], #[trigger] states[j])
    &&& forall|i: int| 0 <= i < n ==> transitions_ok(g, #[trigger] states[i], nexts[i], states)
    &&& forall|j: int| 0 < j < n ==> #[trigger] entered_from_earlier(nexts, j)
}

pub open spec fn nview(v: Seq<Vec<(RuleElem, usize)>>) -> Seq<Seq<(RuleElem, usize)>> {
    Seq::new(v.len(), |i: int| v[i]@)
}

proof fn lemma_transitions_extend(g: RuleSet, s: Seq<Entry>, next: Seq<(RuleElem, usize)>, st1: Seq<Seq<Entry>>, st2: Seq<Seq<Entry>>)
    requires
        transitions_ok(g, s, next, st1),
        st1.len() <= st2.len(),
        forall|q: int| 0 <= q < st1.len() ==> #[trigger] st2[q] == st1[q],
    ensures
        transitions_ok(g, s, next, st2),
{
    assert forall|a: int| 0 <= a < next.len() implies entry_set_eq(st2[(#[trigger] next[a]).1 as int], ogoto(g, s, next[a].0)) by {
        assert(st2[next[a].1 as int] == st1[next[a].1 as int]);
    }
}

/// The start item's closure.
fn init_state_exec(g: &RuleSet, first: &FirstSet) -> (res: Vec<LRItem>)
    requires
        g.wf(),
        first.wf(),
        first.nt() == g.nt(),
        first.nn() == g.nn(),
        first@ == first_table(*g),
    ensures
        entries(res@) == init_state(*g),
        items_ok(*g, entries(res@)),
{
    let mut row = crate::bitset::new_row(g.num_terms + 2);
    row.set(g.num_terms + 1, true);
    assert(row@ == eof_row(g.nt()));
    let mut k: Vec<LRItem> = Vec::new();
    k.push(LRItem { rule: g.rules.len(), dot_pos: 0, la_tokens: row });
    assert(entries(k@) == init_kernel(*g)) by {
        assert(entries(k@)[0] == init_kernel(*g)[0]);
    }
    assert(items_ok(*g, entries(k@))) by {
        assert forall|c: LR0Item| #[trigger] has_core(entries(k@), c) implies ocore_valid(*g, c) by {
            let q = choose|q: int| 0 <= q < entries(k@).len() && entries(k@)[q].0 == c;
            assert(q == 0);
        }
    }
    oclosure_exec(g, first, copy_items(&k), k)
}

/// Builds the states and transitions of the automaton, breadth first from
/// the closure of the start item.
fn gen_states(g: &RuleSet, first: &FirstSet) -> (res: (Vec<Vec<LRItem>>, Vec<Vec<(RuleElem, usize)>>))
    requires
        g.wf(),
        first.wf(),
        first.nt() == g.nt(),
        first.nn() == g.nn(),
        first@ == first_table(*g),
    ensures
        o_automaton(*g, sview(res.0@), nview(res.1@)),
{
    let s0 = init_state_exec(g, first);
    let mut states: Vec<Vec<LRItem>> = Vec::new();
    states.push(s0);
    let mut nexts: Vec<Vec<(RuleElem, usize)>> = Vec::new();
    let mut idx: usize = 0;
    assert(sview(states@)[0] == entries(states@[0]@));
    while idx < states.len()
        invariant
            g.wf(),
            first.wf(),
            first.nt() == g.nt(),
            first.nn() == g.nn(),
            first@ == first_table(*g),
            states@.len() > 0,
            sview(states@)[0] == init_state(*g),
            idx <= states@.len(),
            nexts@.len() == idx,
            forall|i: int| 0 <= i < states@.len() ==> items_ok(*g, #[trigger] sview(states@)[i]),
            forall|i: int, j: int| 0 <= i < j < states@.len() ==> !entry_set_eq(#[trigger] sview(states@)[i], #[trigger] sview(states@)[j]),
            forall|i: int| 0 <= i < idx ==> transitions_ok(*g, #[trigger] sview(states@)[i], nview(nexts@)[i], sview(states@)),
            forall|j: int| 0 < j < states@.len() ==> #[trigger] entered_from_earlier(nview(nexts@), j),
        decreases (usize::MAX - idx) + (usize::MAX - states@.len()),
    {
        let ghost sv0 = sview(states@);
        let ghost nv0 = nview(nexts@);
        assert(sv0[idx as int] == entries(states@[idx as int]@));
        let syms = next_symbols(g, &states[idx]);
        let mut next: Vec<(RuleElem, usize)> = Vec::new();
        let mut a: usize = 0;
        proof {
            assert forall|j: int| 0 < j < states@.len() implies #[trigger] entered_from_earlier(nv0.push(next@), j) by {
                assert(entered_from_earlier(nv0, j));
                let (i, b) = choose|i: int, b: int| 0 <= i < j && i < nv0.len() && 0 <= b < nv0[i].len() && #[trigger] nv0[i][b].1 == j;
                assert(nv0.push(next@)[i] == nv0[i]);
            }
        }
        while a < syms.len()
            invariant
                g.wf(),
                first.wf(),
                first.nt() == g.nt(),
                first.nn() == g.nn(),
                first@ == first_table(*g),
                idx < sv0.len(),
                nexts@.len() == idx,
                nview(nexts@) == nv0,
                sv0[0] == init_state(*g),
                states@.len() >= sv0.len(),
                forall|q: int| 0 <= q < sv0.len() ==> #[trigger] sview(states@)[q] == sv0[q],
                items_ok(*g, sv0[idx as int]),
                forall|i: int| 0 <= i < states@.len() ==> items_ok(*g, #[trigger] sview(states@)[i]),
                forall|i: int, j: int| 0 <= i < j < states@.len() ==> !entry_set_eq(#[trigger] sview(states@)[i], #[trigger] sview(states@)[j]),
                forall|i: int| 0 <= i < idx ==> transitions_ok(*g, #[trigger] sv0[i], nv0[i], sv0),
                forall|p: int, q: int| 0 <= p < q < syms@.len() ==> syms@[p] != syms@[q],
                forall|p: int| 0 <= p < syms@.len() ==> is_next_sym(*g, sv0[idx as int], #[trigger] syms@[p]),
                forall|j: int| 0 <= j < sv0[idx as int].len() && (#[trigger] onext(*g, sv0[idx as int][j].0)) is Some ==> syms@.contains(onext(*g, sv0[idx as int][j].0)->0),
                a <= syms@.len(),
                next@.len() == a,
                forall|p: int| 0 <= p < a ==> (#[trigger] next@[p]).0 == syms@[p],
                forall|p: int| 0 <= p < a ==> (#[trigger] next@[p]).1 < states@.len(),
                forall|p: int| 0 <= p < a ==> entry_set_eq(sview(states@)[(#[trigger] next@[p]).1 as int], ogoto(*g, sv0[idx as int], syms@[p])),
                forall|j: int| 0 < j < states@.len() ==> #[trigger] entered_from_earlier(nv0.push(next@), j),
            decreases syms@.len() - a,
        {
            let x = syms[a];
            proof {
                assert(sview(states@)[idx as int] == entries(states@[idx as int]@));
                lemma_advance(*g, sv0[idx as int], x);
            }
            let k = advance_exec(g, &states[idx], x);
            let st = oclosure_exec(g, first, copy_items(&k), k);
            let ghost old_states = sview(states@);
            let ghost old_next = next@;
            let j = find_or_add_state(&mut states, st);
            next.push((x, j));
            proof {
                assert(next@[a as int] == (x, j));
                assert forall|q: int| 0 <= q < sv0.len() implies #[trigger] sview(states@)[q] == sv0[q] by {
                    assert(sview(states@)[q] == old_states[q]);
                }
                assert forall|i: int| 0 <= i < states@.len() implies items_ok(*g, #[trigger] sview(states@)[i]) by {
                    if i < old_states.len() {
                        assert(sview(states@)[i] == old_states[i]);
                    }
                }
                assert forall|i: int, jj: int| 0 <= i < jj < states@.len() implies !entry_set_eq(#[trigger] sview(states@)[i], #[trigger] sview(states@)[jj]) by {
                    assert(sview(states@)[i] == old_states[i]);
                    if jj < old_states.len() {
                        assert(sview(states@)[jj] == old_states[jj]);
                    } else {
                        assert(!entry_set_eq(old_states[i], sview(states@)[jj]));
                    }
                }
                assert forall|p: int| 0 <= p < a + 1 implies (#[trigger] next@[p]).1 < states@.len() by {
                    if p < a {
                        assert(next@[p] == old_next[p]);
                    }
                }
                assert forall|p: int| 0 <= p < a + 1 implies entry_set_eq(sview(states@)[(#[trigger] next@[p]).1 as int], ogoto(*g, sv0[idx as int], syms@[p])) by {
                    if p < a {
                        assert(next@[p] == old_next[p]);
                        assert(sview(states@)[old_next[p].1 as int] == old_states[old_next[p].1 as int]);
                    }
                }
                assert forall|p: int| 0 <= p < a + 1 implies (#[trigger] next@[p]).0 == syms@[p] by {
                    if p < a {
                        assert(next@[p] == old_next[p]);
                    }
                }
                assert forall|jj: int| 0 < jj < states@.len() implies #[trigger] entered_from_earlier(nv0.push(next@), jj) by {
                    if jj < old_states.len() {
                        assert(entered_from_earlier(nv0.push(old_next), jj));
                        let (i, b) = choose|i: int, b: int|
                            0 <= i < jj && i < nv0.push(old_next).len() && 0 <= b < nv0.push(old_next)[i].len() && #[trigger] nv0.push(old_next)[i][b].1 == jj;
                        if i < nv0.len() {
                            assert(nv0.push(next@)[i] == nv0[i]);
                            assert(nv0.push(old_next)[i] == nv0[i]);
                        } else {
                            assert(nv0.push(next@)[i] == next@);
                            assert(nv0.push(old_next)[i] == old_next);
                            assert(next@[b] == old_next[b]);
                        }
                    } else {
                        assert(jj == j);
                        assert(nv0.push(next@)[idx as int] == next@);
                        assert(nv0.push(next@)[idx as int][a as int].1 == jj);
                    }
                }
            }
            a = a + 1;
        }
        proof {
            let svn = sview(states@);
            assert(svn[idx as int] == sv0[idx as int]);
            assert(transitions_ok(*g, sv0[idx as int], next@, svn)) by {
                assert forall|p: int| 0 <= p < next@.len() implies advance(*g, sv0[idx as int], (#[trigger] next@[p]).0).len() > 0 by {
                    assert(is_next_sym(*g, sv0[idx as int], syms@[p]));
                    lemma_advance(*g, sv0[idx as int], syms@[p]);
                }
                assert forall|j: int| 0 <= j < sv0[idx as int].len() && (#[trigger] onext(*g, sv0[idx as int][j].0)) is Some implies exists|b: int|
                    0 <= b < next@.len() && next@[b].0 == onext(*g, sv0[idx as int][j].0)->0 by {
                    let y = onext(*g, sv0[idx as int][j].0)->0;
                    assert(syms@.contains(y));
                    let b = choose|b: int| 0 <= b < syms@.len() && syms@[b] == y;
                    assert(next@[b].0 == y);
                }
            }
            assert forall|i: int| 0 <= i < idx implies transitions_ok(*g, #[trigger] sv0[i], nv0[i], svn) by {
                lemma_transitions_extend(*g, sv0[i], nv0[i], sv0, svn);
            }
        }
        let ghost pushed_next = next@;
        nexts.push(next);
        proof {
            let svn = sview(states@);
            assert(nview(nexts@) == nv0.push(pushed_next));
            assert forall|i: int| 0 <= i < idx + 1 implies transitions_ok(*g, #[trigger] svn[i], nview(nexts@)[i], svn) by {
                assert(svn[i] == sv0[i]);
                if i < idx {
                    assert(nview(nexts@)[i] == nv0[i]);
                } else {
                    assert(nview(nexts@)[i] == pushed_next);
                }
            }
            vstd::std_specs::vec::axiom_spec_len(&states);
            assert(states@.len() >= sv0.len());
        }
        idx = idx + 1;
    }
    (states, nexts)
}

/// An entry of the builder's action table.
#[derive(Clone, Copy, PartialEq, Eq, Structural, Debug)]
pub enum LRAction {
    /// Read the token and go to the state.
    Shift(usize),
    /// Reduce by a rule: its tag, its left side, the length of its right side.
    Reduce(Option<usize>, usize, usize),
    Accept,
    Empty,
}

/// The parse tables of the builder: per state, the action for each token
/// kind, the action at the end of the input, and the next state for each
/// nonterminal (`0` where there is no transition).
#[derive(Debug)]
pub struct LR1Configure {
    pub action_table: Vec<Vec<LRAction>>,
    pub eof_action_table: Vec<LRAction>,
    pub goto_table: Vec<Vec<usize>>,
}

/// The target of the last transition over `x` in `next`.
pub open spec fn target_of(next: Seq<(RuleElem, usize)>, x: RuleElem) -> Option<usize>
    decreases next.len(),
{
    if next.len() == 0 {
        None
    } else if next.last().0 == x {
        Some(next.last().1)
    } else {
        target_of(next.drop_last(), x)
    }
}

/// The index of the last item of `s` that is complete and has the
/// lookahead of column `k`; at a token column the start item is passed over.
pub open spec fn last_reduce(g: RuleSet, s: Seq<Entry>, k: int) -> Option<int>
    decreases s.len(),
{
    if s.len() == 0 {
        None
    } else {
        let e = s.last();
        if onext(g, e.0) is None && e.1[k] && (k == g.nt() + 1 || e.0.rule < g.rules@.len()) {
            Some(s.len() - 1)
        } else {
            last_reduce(g, s.drop_last(), k)
        }
    }
}

/// The reduction by rule `r`.
pub open spec fn reduce_action(g: RuleSet, r: int) -> LRAction {
    LRAction::Reduce(g.rules@[r].tag, g.rules@[r].lhs, g.rules@[r].rhs@.len() as usize)
}

/// The action of a state for token `t`: the reduction of its last complete
/// item with the lookahead `t`, else the shift over `t`, else none.
pub open spec fn action_cell(g: RuleSet, s: Seq<Entry>, next: Seq<(RuleElem, usize)>, t: int) -> LRAction {
    match last_reduce(g, s, t) {
        Some(q) => reduce_action(g, s[q].0.rule as int),
        None => match target_of(next, RuleElem::Term(t as usize)) {
            Some(j) => LRAction::Shift(j),
            None => LRAction::Empty,
        },
    }
}

/// The action of a state at the end of the input: that of its last complete
/// item with the lookahead `EOF`, accepting for the start item.
pub open spec fn eof_cell(g: RuleSet, s: Seq<Entry>) -> LRAction {
    match last_reduce(g, s, (g.nt() + 1) as int) {
        Some(q) => if s[q].0.rule == g.rules@.len() {
            LRAction::Accept
        } else {
            reduce_action(g, s[q].0.rule as int)
        },
        None => LRAction::Empty,
    }
}

/// The goto entry of a state for nonterminal `m`.
pub open spec fn goto_cell(next: Seq<(RuleElem, usize)>, m: int) -> usize {
    match target_of(next, RuleElem::NonTerm(m as usize)) {
        Some(j) => j,
        None => 0,
    }
}

pub proof fn lemma_target_of(next: Seq<(RuleElem, usize)>, x: RuleElem)
    ensures
        target_of(next, x) matches Some(j) ==> exists|a: int| 0 <= a < next.len() && #[trigger] next[a] == (x, j),
    decreases next.len(),
{
    if next.len() > 0 && next.last().0 != x {
        lemma_target_of(next.drop_last(), x);
        if let Some(j) = target_of(next.drop_last(), x) {
            let a = choose|a: int| 0 <= a < next.drop_last().len() && #[trigger] next.drop_last()[a] == (x, j);
            assert(next[a] == (x, j));
        }
    } else if next.len() > 0 {
        assert(next[next.len() - 1] == (x, next.last().1));
    }
}

pub proof fn lemma_last_reduce(g: RuleSet, s: Seq<Entry>, k: int)
    ensures
        last_reduce(g, s, k) matches Some(q) ==> 0 <= q < s.len() && onext(g, s[q].0) is None && s[q].1[k] && (k == g.nt() + 1
            || s[q].0.rule < g.rules@.len()),
    decreases s.len(),
{
    if s.len() > 0 {
        lemma_last_reduce(g, s.drop_last(), k);
    }
}

impl LR1Configure {
    /// The tables are those of the states `states` with the transitions
    /// `nexts` of grammar `g`.
    pub open spec fn matches(&self, g: RuleSet, states: Seq<Seq<Entry>>, nexts: Seq<Seq<(RuleElem, usize)>>) -> bool {
        let n = states.len();
        &&& self.action_table@.len() == n
        &&& self.eof_action_table@.len() == n
        &&& self.goto_table@.len() == n
        &&& forall|i: int| 0 <= i < n ==> (#[trigger] self.action_table@[i])@.len() == g.nt()
        &&& forall|i: int| 0 <= i < n ==> (#[trigger] self.goto_table@[i])@.len() == g.nn()
        &&& forall|i: int, t: int| 0 <= i < n && 0 <= t < g.nt() ==> #[trigger] self.action_table@[i]@[t] == action_cell(g, states[i], nexts[i], t)
        &&& forall|i: int| 0 <= i < n ==> #[trigger] self.eof_action_table@[i] == eof_cell(g, states[i])
        &&& forall|i: int, m: int| 0 <= i < n && 0 <= m < g.nn() ==> #[trigger] self.goto_table@[i]@[m] == goto_cell(nexts[i], m)
    }
}

/// The last complete item of `s` with the lookahead of column `k`.
fn last_reduce_exec(g: &RuleSet, s: &Vec<LRItem>, k: usize) -> (res: Option<usize>)
    requires
        g.wf(),
        items_ok(*g, entries(s@)),
        k < g.nt() + 2,
    ensures
        res is None <==> last_reduce(*g, entries(s@), k as int) is None,
        res matches Some(q) ==> last_reduce(*g, entries(s@), k as int) == Some(q as int),
{
    let mut found: Option<usize> = None;
    let mut i: usize = 0;
    while i < s.len()
        invariant
            g.wf(),
            items_ok(*g, entries(s@)),
            k < g.nt() + 2,
            i <= s@.len(),
            found is None <==> last_reduce(*g, entries(s@).subrange(0, i as int), k as int) is None,
            found matches Some(q) ==> last_reduce(*g, entries(s@).subrange(0, i as int), k as int) == Some(q as int),
        decreases s@.len() - i,
    {
        let ghost pre = entries(s@).subrange(0, i as int);
        let ghost cur = entries(s@).subrange(0, i + 1);
        assert(cur.drop_last() == pre);
        assert(cur.last() == entry_of(s@[i as int]));
        assert(entries(s@)[i as int] == entry_of(s@[i as int]));
        assert(has_core(entries(s@), entries(s@)[i as int].0));
        assert(s@[i as int].la_tokens@.len() == g.nt() + 2);
        let nx = onext_exec(g, s[i].rule, s[i].dot_pos);
        if nx.is_none() && s[i].la_tokens[k] && (k == g.num_terms + 1 || s[i].rule < g.rules.len()) {
            found = Some(i);
        }
        i = i + 1;
    }
    assert(entries(s@).subrange(0, s@.len() as int) == entries(s@));
    found
}

/// The target of the last transition over `x`.
fn target_exec(next: &Vec<(RuleElem, usize)>, x: RuleElem) -> (res: Option<usize>)
    ensures
        res == target_of(next@, x),
{
    let mut found: Option<usize> = None;
    let mut i: usize = 0;
    while i < next.len()
        invariant
            i <= next@.len(),
            found == target_of(next@.subrange(0, i as int), x),
        decreases next@.len() - i,
    {
        let ghost cur = next@.subrange(0, i + 1);
        assert(cur.drop_last() == next@.subrange(0, i as int));
        assert(cur.last() == next@[i as int]);
        if next[i].0 == x {
            found = Some(next[i].1);
        }
        i = i + 1;
    }
    assert(next@.subrange(0, next@.len() as int) == next@);
    found
}

/// The reduction by rule `r`.
fn reduce_exec(g: &RuleSet, r: usize) -> (res: LRAction)
    requires
        r < g.rules@.len(),
    ensures
        res == reduce_action(*g, r as int),
{
    LRAction::Reduce(g.rules[r].tag, g.rules[r].lhs, g.rules[r].rhs.len())
}

/// The action is one that a table of `n` states with `nn` nonterminals can
/// hold.
pub open spec fn oaction_ok(a: LRAction, n: nat, nn: nat) -> bool {
    match a {
        LRAction::Shift(j) => j < n,
        LRAction::Reduce(_, m, _) => m < nn,
        _ => true,
    }
}

fn action_cell_exec(g: &RuleSet, s: &Vec<LRItem>, next: &Vec<(RuleElem, usize)>, t: usize) -> (res: LRAction)
    requires
        g.wf(),
        items_ok(*g, entries(s@)),
        t < g.nt(),
    ensures
        res == action_cell(*g, entries(s@), next@, t as int),
        res is Reduce ==> res->1 < g.nn(),
        res matches LRAction::Shift(j) ==> exists|a: int| 0 <= a < next@.len() && #[trigger] next@[a] == (RuleElem::Term(t), j),
{
    proof {
        lemma_last_reduce(*g, entries(s@), t as int);
        lemma_target_of(next@, RuleElem::Term(t));
    }
    match last_reduce_exec(g, s, t) {
        Some(q) => {
            assert(entries(s@)[q as int] == entry_of(s@[q as int]));
            assert(g.rule_wf(s@[q as int].rule as int));
            reduce_exec(g, s[q].rule)
        },
        None => match target_exec(next, RuleElem::Term(t)) {
            Some(j) => LRAction::Shift(j),
            None => LRAction::Empty,
        },
    }
}

fn eof_cell_exec(g: &RuleSet, s: &Vec<LRItem>) -> (res: LRAction)
    requires
        g.wf(),
        items_ok(*g, entries(s@)),
    ensures
        res == eof_cell(*g, entries(s@)),
        res is Reduce ==> res->1 < g.nn(),
        !(res is Shift),
{
    proof {
        lemma_last_reduce(*g, entries(s@), (g.nt() + 1) as int);
    }
    match last_reduce_exec(g, s, g.num_terms + 1) {
        Some(q) => {
            assert(entries(s@)[q as int] == entry_of(s@[q as int]));
            assert(has_core(entries(s@), entries(s@)[q as int].0));
            if s[q].rule == g.rules.len() {
                LRAction::Accept
            } else {
                assert(g.rule_wf(s@[q as int].rule as int));
                reduce_exec(g, s[q].rule)
            }
        },
        None => LRAction::Empty,
    }
}

fn goto_cell_exec(next: &Vec<(RuleElem, usize)>, m: usize) -> (res: usize)
    ensures
        res == goto_cell(next@, m as int),
        res != 0 ==> exists|a: int| 0 <= a < next@.len() && #[trigger] next@[a] == (RuleElem::NonTerm(m), res),
{
    proof {
        lemma_target_of(next@, RuleElem::NonTerm(m));
    }
    match target_exec(next, RuleElem::NonTerm(m)) {
        Some(j) => j,
        None => 0,
    }
}

impl LR1Configure {
    pub open spec fn num_states(&self) -> nat {
        self.action_table@.len()
    }

    /// The number of token columns.
    pub open spec fn num_columns(&self) -> nat {
        self.action_table@[0]@.len()
    }

    /// The number of nonterminal columns.
    pub open spec fn num_gotos(&self) -> nat {
        self.goto_table@[0]@.len()
    }

    /// Shapes and references agree: all rows of a table have one width,
    /// every state named exists, every reduction names a goto column, and
    /// the end of the input is never shifted.
    pub open spec fn wf(&self) -> bool {
        let n = self.num_states();
        &&& n > 0
        &&& self.eof_action_table@.len() == n
        &&& self.goto_table@.len() == n
        &&& forall|s: int| 0 <= s < n ==> (#[trigger] self.action_table@[s])@.len() == self.num_columns()
        &&& forall|s: int| 0 <= s < n ==> (#[trigger] self.goto_table@[s])@.len() == self.num_gotos()
        &&& forall|s: int, k: int| 0 <= s < n && 0 <= k < self.num_columns() ==> oaction_ok(#[trigger] self.action_table@[s]@[k], n, self.num_gotos())
        &&& forall|s: int| 0 <= s < n ==> oaction_ok(#[trigger] self.eof_action_table@[s], n, self.num_gotos())
        &&& forall|s: int| 0 <= s < n ==> !((#[trigger] self.eof_action_table@[s]) is Shift)
        &&& forall|s: int, m: int| 0 <= s < n && 0 <= m < self.num_gotos() ==> #[trigger] self.goto_table@[s]@[m] < n
    }

    /// Builds the LR(1) tables of the grammar: the automaton of the
    /// builder from the start item `__top_dummy ::= . <top>` with the
    /// lookahead `EOF`, then per state the shifts, the gotos, and the
    /// reductions of its complete items (a later item's reduction taking the
    /// place of an earlier action).
    pub fn new(ruleset: &RuleSet) -> (res: LR1Configure)
        requires
            ruleset.wf(),
        ensures
            res.wf(),
            res.num_columns() == ruleset.nt(),
            res.num_gotos() == ruleset.nn(),
            exists|states: Seq<Seq<Entry>>, nexts: Seq<Seq<(RuleElem, usize)>>|
                o_automaton(*ruleset, states, nexts) && #[trigger] res.matches(*ruleset, states, nexts),
    {
        let g = ruleset;
        let first = FirstSet::from(g);
        let (states, nexts) = gen_states(g, &first);
        let ghost sv = sview(states@);
        let ghost nv = nview(nexts@);
        let n = states.len();
        let mut action_table: Vec<Vec<LRAction>> = Vec::new();
        let mut eof_action_table: Vec<LRAction> = Vec::new();
        let mut goto_table: Vec<Vec<usize>> = Vec::new();
        let mut i: usize = 0;
        while i < n
            invariant
                g.wf(),
                n == states@.len(),
                sv == sview(states@),
                nv == nview(nexts@),
                o_automaton(*g, sv, nv),
                i <= n,
                action_table@.len() == i,
                eof_action_table@.len() == i,
                goto_table@.len() == i,
                forall|p: int| 0 <= p < i ==> (#[trigger] action_table@[p])@.len() == g.nt(),
                forall|p: int| 0 <= p < i ==> (#[trigger] goto_table@[p])@.len() == g.nn(),
                forall|p: int, t: int| 0 <= p < i && 0 <= t < g.nt() ==> #[trigger] action_table@[p]@[t] == action_cell(*g, sv[p], nv[p], t),
                forall|p: int| 0 <= p < i ==> #[trigger] eof_action_table@[p] == eof_cell(*g, sv[p]),
                forall|p: int, m: int| 0 <= p < i && 0 <= m < g.nn() ==> #[trigger] goto_table@[p]@[m] == goto_cell(nv[p], m),
                forall|p: int, t: int| 0 <= p < i && 0 <= t < g.nt() ==> oaction_ok(#[trigger] action_table@[p]@[t], n as nat, g.nn()),
                forall|p: int| 0 <= p < i ==> oaction_ok(#[trigger] eof_action_table@[p], n as nat, g.nn()),
                forall|p: int| 0 <= p < i ==> !((#[trigger] eof_action_table@[p]) is Shift),
                forall|p: int, m: int| 0 <= p < i && 0 <= m < g.nn() ==> #[trigger] goto_table@[p]@[m] < n,
            decreases n - i,
        {
            assert(sv[i as int] == entries(states@[i as int]@));
            assert(nv[i as int] == nexts@[i as int]@);
            assert(items_ok(*g, sv[i as int]));
            assert(transitions_ok(*g, sv[i as int], nv[i as int], sv));
            let mut row: Vec<LRAction> = Vec::new();
            let mut t: usize = 0;
            while t < g.num_terms
                invariant
                    g.wf(),
                    n == states@.len(),
                    n == nexts@.len(),
                    sv == sview(states@),
                    nv == nview(nexts@),
                    i < n,
                    items_ok(*g, entries(states@[i as int]@)),
                    transitions_ok(*g, sv[i as int], nv[i as int], sv),
                    sv[i as int] == entries(states@[i as int]@),
                    nv[i as int] == nexts@[i as int]@,
                    t <= g.nt(),
                    row@.len() == t,
                    forall|q: int| 0 <= q < t ==> #[trigger] row@[q] == action_cell(*g, sv[i as int], nv[i as int], q),
                    forall|q: int| 0 <= q < t ==> oaction_ok(#[trigger] row@[q], n as nat, g.nn()),
                decreases g.nt() - t,
            {
                let c = action_cell_exec(g, &states[i], &nexts[i], t);
                proof {
                    if let LRAction::Shift(j) = c {
                        let a = choose|a: int| 0 <= a < nexts@[i as int]@.len() && #[trigger] nexts@[i as int]@[a] == (RuleElem::Term(t), j);
                        assert(nv[i as int][a].1 < sv.len());
                    }
                }
                row.push(c);
                t = t + 1;
            }
            let mut grow: Vec<usize> = Vec::new();
            let mut m: usize = 0;
            while m < g.num_nonterms
                invariant
                    g.wf(),
                    n == states@.len(),
                    n == nexts@.len(),
                    n > 0,
                    sv == sview(states@),
                    nv == nview(nexts@),
                    i < n,
                    transitions_ok(*g, sv[i as int], nv[i as int], sv),
                    nv[i as int] == nexts@[i as int]@,
                    m <= g.nn(),
                    grow@.len() == m,
                    forall|q: int| 0 <= q < m ==> #[trigger] grow@[q] == goto_cell(nv[i as int], q),
                    forall|q: int| 0 <= q < m ==> #[trigger] grow@[q] < n,
                decreases g.nn() - m,
            {
                let c = goto_cell_exec(&nexts[i], m);
                proof {
                    if c != 0 {
                        let a = choose|a: int| 0 <= a < nexts@[i as int]@.len() && #[trigger] nexts@[i as int]@[a] == (RuleElem::NonTerm(m), c);
                        assert(nv[i as int][a].1 < sv.len());
                    }
                }
                grow.push(c);
                m = m + 1;
            }
            let e = eof_cell_exec(g, &states[i]);
            let ghost old_at = action_table@;
            let ghost old_gt = goto_table@;
            action_table.push(row);
            goto_table.push(grow);
            eof_action_table.push(e);
            proof {
                assert forall|p: int, q: int| 0 <= p < i + 1 && 0 <= q < g.nt() implies #[trigger] action_table@[p]@[q] == action_cell(*g, sv[p], nv[p], q) by {
                    if p < i {
                        assert(action_table@[p] == old_at[p]);
                    }
                }
                assert forall|p: int, q: int| 0 <= p < i + 1 && 0 <= q < g.nt() implies oaction_ok(#[trigger] action_table@[p]@[q], n as nat, g.nn()) by {
                    if p < i {
                        assert(action_table@[p] == old_at[p]);
                    }
                }
                assert forall|p: int, q: int| 0 <= p < i + 1 && 0 <= q < g.nn() implies #[trigger] goto_table@[p]@[q] == goto_cell(nv[p], q) by {
                    if p < i {
                        assert(goto_table@[p] == old_gt[p]);
                    }
                }
                assert forall|p: int, q: int| 0 <= p < i + 1 && 0 <= q < g.nn() implies #[trigger] goto_table@[p]@[q] < n by {
                    if p < i {
                        assert(goto_table@[p] == old_gt[p]);
                    }
                }
                assert forall|p: int| 0 <= p < i + 1 implies (#[trigger] action_table@[p])@.len() == g.nt() by {
                    if p < i {
                        assert(action_table@[p] == old_at[p]);
                    }
                }
                assert forall|p: int| 0 <= p < i + 1 implies (#[trigger] goto_table@[p])@.len() == g.nn() by {
                    if p < i {
                        assert(goto_table@[p] == old_gt[p]);
                    }
                }
            }
            i = i + 1;
        }
        let res = LR1Configure { action_table, eof_action_table, goto_table };
        assert(res.matches(*g, sv, nv));
        res
    }
}

/// The action of state `s` for the token kind `tok`, or at the end of the
/// input.
pub open spec fn ocell(c: LR1Configure, s: int, tok: Option<usize>) -> LRAction {
    match tok {
        Some(k) => c.action_table@[s]@[k as int],
        None => c.eof_action_table@[s],
    }
}

pub open spec fn prepend_ev(ev: (EventKind, nat), r: Option<Seq<(EventKind, nat)>>) -> Option<Seq<(EventKind, nat)>> {
    match r {
        Some(x) => Some(seq![ev] + x),
        None => None,
    }
}

/// The events of the parse from `stack` that reads the token kinds `toks`
/// from position `pos` on, each with the position it was produced at: a
/// shift reads the token, a reduction pops the right side and goes to the
/// goto entry of the state below; the parse ends at the first accept or
/// error. A reduction that would empty the stack is reported as an error.
/// `None` when `fuel` steps do not suffice.
pub open spec fn orun(c: LR1Configure, stack: Seq<usize>, toks: Seq<usize>, pos: nat, fuel: nat) -> Option<Seq<(EventKind, nat)>>
    decreases fuel,
{
    if fuel == 0 {
        None
    } else {
        let tok = kind_at(toks, pos);
        match ocell(c, stack.last() as int, tok) {
            LRAction::Shift(j) => match tok {
                Some(_) => prepend_ev((EventKind::Read, pos), orun(c, stack.push(j), toks, pos + 1, (fuel - 1) as nat)),
                None => Some(seq![(error_kind(tok), pos)]),
            },
            LRAction::Reduce(tag, m, len) => if len < stack.len() {
                let st1 = stack.subrange(0, stack.len() - len);
                prepend_ev(
                    (EventKind::Parse(tag, len), pos),
                    orun(c, st1.push(c.goto_table@[st1.last() as int]@[m as int]), toks, pos, (fuel - 1) as nat),
                )
            } else {
                Some(seq![(error_kind(tok), pos)])
            },
            LRAction::Accept => Some(seq![]),
            LRAction::Empty => Some(seq![(error_kind(tok), pos)]),
        }
    }
}

/// The event `e` has the shape `k`, for the token `tok`; errors are those
/// of this parser.
pub open spec fn oevent_matches(e: ParseEvent, k: EventKind, tok: Option<Token>) -> bool {
    match k {
        EventKind::Read => tok is Some && e == ParseEvent::Read(tok->0),
        EventKind::Parse(tag, len) => e == ParseEvent::Parse { rule: tag, len },
        EventKind::ErrToken => {
            &&& tok is Some
            &&& e matches ParseEvent::Error(d)
            &&& d.err == ErrorBody::Parse(ParseError::UnexpectedToken { actual: tok->0.kind })
            &&& d.diagnostics matches Some(dg) && dg.src@ == tok->0.src@ && dg.range == tok->0.body
        },
        EventKind::ErrEof => {
            &&& e matches ParseEvent::Error(d)
            &&& d.err == ErrorBody::Parse(ParseError::UnexpectedEOF)
            &&& d.diagnostics is None
        },
    }
}

/// `events` are the events `evs`, each for the token at its position.
pub open spec fn oevents_match<'a>(events: Seq<ParseEvent<'a>>, evs: Seq<(EventKind, nat)>, tokens: Seq<Token<'a>>) -> bool {
    &&& events.len() == evs.len()
    &&& forall|i: int| 0 <= i < evs.len() ==> oevent_matches(#[trigger] events[i], evs[i].0, token_at(tokens, evs[i].1 as int))
}

/// The parser over the tables of this builder.
#[derive(Debug)]
pub struct LR1 {
    pub tables: LR1Configure,
}

impl LR1 {
    /// Builds the parser of the grammar.
    pub fn try_from(ruleset: &RuleSet) -> (res: LR1)
        requires
            ruleset.wf(),
        ensures
            res.tables.wf(),
            res.tables.num_columns() == ruleset.nt(),
            res.tables.num_gotos() == ruleset.nn(),
            exists|states: Seq<Seq<Entry>>, nexts: Seq<Seq<(RuleElem, usize)>>|
                o_automaton(*ruleset, states, nexts) && #[trigger] res.tables.matches(*ruleset, states, nexts),
    {
        LR1 { tables: LR1Configure::new(ruleset) }
    }

    /// Parses `tokens` from state `0` and reports what it did, up to the
    /// first accept or error.
    pub fn run<'input>(&self, tokens: &Vec<Token<'input>>) -> (events: Vec<ParseEvent<'input>>)
        requires
            self.tables.wf(),
            forall|i: int| 0 <= i < tokens@.len() ==> (#[trigger] tokens@[i]).kind < self.tables.num_columns(),
        ensures
            exists|fuel: nat, evs: Seq<(EventKind, nat)>|
                orun(self.tables, seq![0usize], kinds_of(tokens@), 0, fuel) == Some(evs) && oevents_match(events@, evs, tokens@),
    {
        let c = &self.tables;
        let ghost toks = kinds_of(tokens@);
        let mut stack: Vec<usize> = Vec::new();
        stack.push(0);
        let mut events: Vec<ParseEvent<'input>> = Vec::new();
        let mut pos: usize = 0;
        let ghost mut collected: Seq<(EventKind, nat)> = seq![];
        let ghost mut steps: nat = 0;
        assert(stack@ == seq![0usize]);
        proof {
            assert forall|f: nat| #[trigger] orun(*c, seq![0usize], toks, 0, f + steps) == after(collected, orun(*c, stack@, toks, pos as nat, f)) by {
                match orun(*c, seq![0usize], toks, 0, f) {
                    Some(r) => { assert(collected + r == r); },
                    None => {},
                }
            }
        }
        loop
            invariant
                *c == self.tables,
                c.wf(),
                toks == kinds_of(tokens@),
                forall|i: int| 0 <= i < tokens@.len() ==> (#[trigger] tokens@[i]).kind < c.num_columns(),
                stack@.len() > 0,
                forall|i: int| 0 <= i < stack@.len() ==> #[trigger] stack@[i] < c.num_states(),
                pos <= tokens@.len(),
                oevents_match(events@, collected, tokens@),
                forall|f: nat| #[trigger] orun(*c, seq![0usize], toks, 0, f + steps) == after(collected, orun(*c, stack@, toks, pos as nat, f)),
            decreases usize::MAX - events@.len(),
        {
            let top = stack[stack.len() - 1];
            let tok: Option<usize> = if pos < tokens.len() {
                Some(tokens[pos].kind)
            } else {
                None
            };
            let token: Option<Token<'input>> = if pos < tokens.len() {
                Some(tokens[pos])
            } else {
                None
            };
            proof {
                assert(tok == kind_at(toks, pos as nat));
                assert(token == token_at(tokens@, pos as int));
            }
            let action = match tok {
                Some(k) => c.action_table[top][k],
                None => c.eof_action_table[top],
            };
            let ghost st = stack@;
            let ghost old_events = events@;
            let ghost old_collected = collected;
            assert(action == ocell(*c, st.last() as int, tok));
            match action {
                LRAction::Shift(j) => {
                    match token {
                        Some(tk) => {
                            stack.push(j);
                            events.push(ParseEvent::Read(tk));
                            proof {
                                let ev = (EventKind::Read, pos as nat);
                                self.lemma_step(st, toks, pos as nat, steps, collected, ev, stack@, (pos + 1) as nat);
                                collected = old_collected.push(ev);
                                steps = steps + 1;
                                Self::lemma_events_push(events@, old_events, old_collected, ev, tokens@);
                                assert forall|i: int| 0 <= i < stack@.len() implies #[trigger] stack@[i] < c.num_states() by {
                                    if i < st.len() {
                                        assert(stack@[i] == st[i]);
                                    }
                                }
                                vstd::std_specs::vec::axiom_spec_len(&events);
                            }
                            pos = pos + 1;
                        },
                        None => {
                            proof {
                                assert(!(c.eof_action_table@[top as int] is Shift));
                            }
                            events.push(ParseEvent::Error(DiagnosticError::from(ErrorBody::Parse(ParseError::UnexpectedEOF))));
                            return events;
                        },
                    }
                },
                LRAction::Reduce(tag, m, len) => {
                    let nlen = stack.len();
                    if len < nlen {
                        let below = stack[nlen - len - 1];
                        let j = c.goto_table[below][m];
                        stack.truncate(nlen - len);
                        stack.push(j);
                        events.push(ParseEvent::Parse { rule: tag, len });
                        proof {
                            let st1 = st.subrange(0, st.len() - len);
                            assert(st1.last() == below);
                            assert(stack@ == st1.push(j));
                            let ev = (EventKind::Parse(tag, len), pos as nat);
                            self.lemma_step(st, toks, pos as nat, steps, collected, ev, stack@, pos as nat);
                            collected = old_collected.push(ev);
                            steps = steps + 1;
                            Self::lemma_events_push(events@, old_events, old_collected, ev, tokens@);
                            assert forall|i: int| 0 <= i < stack@.len() implies #[trigger] stack@[i] < c.num_states() by {
                                if i < st1.len() {
                                    assert(stack@[i] == st[i]);
                                }
                            }
                            vstd::std_specs::vec::axiom_spec_len(&events);
                        }
                    } else {
                        let ev = self.error_event(token);
                        events.push(ev);
                        proof {
                            self.lemma_last(st, toks, pos as nat, steps, collected, seq![(error_kind(tok), pos as nat)]);
                            Self::lemma_events_push(events@, old_events, old_collected, (error_kind(tok), pos as nat), tokens@);
                            assert(old_collected + seq![(error_kind(tok), pos as nat)] == old_collected.push((error_kind(tok), pos as nat)));
                        }
                        return events;
                    }
                },
                LRAction::Accept => {
                    proof {
                        self.lemma_last(st, toks, pos as nat, steps, collected, seq![]);
                        assert(collected + seq![] == collected);
                    }
                    return events;
                },
                LRAction::Empty => {
                    let ev = self.error_event(token);
                    events.push(ev);
                    proof {
                        self.lemma_last(st, toks, pos as nat, steps, collected, seq![(error_kind(tok), pos as nat)]);
                        Self::lemma_events_push(events@, old_events, old_collected, (error_kind(tok), pos as nat), tokens@);
                        assert(old_collected + seq![(error_kind(tok), pos as nat)] == old_collected.push((error_kind(tok), pos as nat)));
                    }
                    return events;
                },
            }
        }
    }

    /// The error reported for `token`, or for the end of the input.
    fn error_event<'input>(&self, token: Option<Token<'input>>) -> (res: ParseEvent<'input>)
        ensures
            oevent_matches(res, error_kind(crate::driver::tok_kind(token)), token),
    {
        match token {
            Some(tk) => ParseEvent::Error(ParseError::new_unexpected_token(tk)),
            None => ParseEvent::Error(DiagnosticError::from(ErrorBody::Parse(ParseError::UnexpectedEOF))),
        }
    }

    proof fn lemma_step(
        &self,
        st: Seq<usize>,
        toks: Seq<usize>,
        pos: nat,
        steps: nat,
        collected: Seq<(EventKind, nat)>,
        ev: (EventKind, nat),
        st2: Seq<usize>,
        pos2: nat,
    )
        requires
            forall|f: nat| #[trigger] orun(self.tables, seq![0usize], toks, 0, f + steps) == after(collected, orun(self.tables, st, toks, pos, f)),
            forall|f: nat| #[trigger] orun(self.tables, st, toks, pos, f + 1) == prepend_ev(ev, orun(self.tables, st2, toks, pos2, f)),
        ensures
            forall|f: nat| #[trigger] orun(self.tables, seq![0usize], toks, 0, f + (steps + 1)) == after(collected.push(ev), orun(self.tables, st2, toks, pos2, f)),
    {
        assert forall|f: nat| #[trigger] orun(self.tables, seq![0usize], toks, 0, f + (steps + 1)) == after(collected.push(ev), orun(self.tables, st2, toks, pos2, f)) by {
            assert(orun(self.tables, seq![0usize], toks, 0, (f + 1) + steps) == after(collected, orun(self.tables, st, toks, pos, f + 1)));
            assert((f + 1) + steps == f + (steps + 1));
            match orun(self.tables, st2, toks, pos2, f) {
                Some(x) => {
                    assert(collected + (seq![ev] + x) == collected.push(ev) + x);
                },
                None => {},
            }
        }
    }

    proof fn lemma_last(&self, st: Seq<usize>, toks: Seq<usize>, pos: nat, steps: nat, collected: Seq<(EventKind, nat)>, last: Seq<(EventKind, nat)>)
        requires
            forall|f: nat| #[trigger] orun(self.tables, seq![0usize], toks, 0, f + steps) == after(collected, orun(self.tables, st, toks, pos, f)),
            orun(self.tables, st, toks, pos, 1) == Some(last),
        ensures
            orun(self.tables, seq![0usize], toks, 0, 1 + steps) == Some(collected + last),
    {
        assert(orun(self.tables, seq![0usize], toks, 0, 1 + steps) == after(collected, orun(self.tables, st, toks, pos, 1)));
    }

    proof fn lemma_events_push<'a>(
        events: Seq<ParseEvent<'a>>,
        old_events: Seq<ParseEvent<'a>>,
        old_collected: Seq<(EventKind, nat)>,
        ev: (EventKind, nat),
        tokens: Seq<Token<'a>>,
    )
        requires
            oevents_match(old_events, old_collected, tokens),
            events.len() == old_events.len() + 1,
            forall|i: int| 0 <= i < old_events.len() ==> events[i] == old_events[i],
            oevent_matches(events[old_events.len() as int], ev.0, token_at(tokens, ev.1 as int)),
        ensures
            oevents_match(events, old_collected.push(ev), tokens),
    {
        let c2 = old_collected.push(ev);
        assert forall|i: int| 0 <= i < c2.len() implies oevent_matches(#[trigger] events[i], c2[i].0, token_at(tokens, c2[i].1 as int)) by {
            if i < old_collected.len() {
                assert(events[i] == old_events[i]);
                assert(c2[i] == old_collected[i]);
            }
        }
    }
}

/// No token column of the builder's tables holds `Accept`: the input is
/// accepted only at its end.
pub proof fn lemma_set_tables_accept_only_at_end(
    c: LR1Configure,
    g: RuleSet,
    states: Seq<Seq<Entry>>,
    nexts: Seq<Seq<(RuleElem, usize)>>,
    s: int,
    k: int,
)
    requires
        c.matches(g, states, nexts),
        0 <= s < states.len(),
        0 <= k < g.nt(),
    ensures
        c.action_table@[s]@[k] != LRAction::Accept,
{
    assert(c.action_table@[s]@[k] == action_cell(g, states[s], nexts[s], k));
}

/// A complete item with the lookahead of column `k` (at a token column, not
/// the start item) is passed by no later search: the last such item stands
/// at or after it.
proof fn lemma_last_reduce_found(g: RuleSet, s: Seq<Entry>, k: int, j: int)
    requires
        0 <= j < s.len(),
        onext(g, s[j].0) is None,
        s[j].1[k],
        k == g.nt() + 1 || s[j].0.rule < g.rules@.len(),
    ensures
        last_reduce(g, s, k) matches Some(q) && j <= q,
    decreases s.len(),
{
    let e = s.last();
    if !(onext(g, e.0) is None && e.1[k] && (k == g.nt() + 1 || e.0.rule < g.rules@.len())) {
        assert(j != s.len() - 1);
        assert(s.drop_last()[j] == s[j]);
        lemma_last_reduce_found(g, s.drop_last(), k, j);
    }
}

/// In the builder's tables every complete item `[A -> α ., L]` of a state
/// (but the start item) makes the cell of each token of `L` a reduction:
/// one by the rule of a complete item of that state with that token among
/// its lookaheads, and by its own rule where every such item has its rule.
pub proof fn lemma_set_tables_reduces(
    c: LR1Configure,
    g: RuleSet,
    states: Seq<Seq<Entry>>,
    nexts: Seq<Seq<(RuleElem, usize)>>,
    i: int,
    j: int,
    t: int,
)
    requires
        c.matches(g, states, nexts),
        0 <= i < states.len(),
        0 <= j < states[i].len(),
        onext(g, states[i][j].0) is None,
        states[i][j].0.rule < g.rules@.len(),
        0 <= t < g.nt(),
        states[i][j].1[t],
    ensures
        c.action_table@[i]@[t] is Reduce,
        exists|q: int| #![trigger states[i][q]]
            0 <= q < states[i].len() && onext(g, states[i][q].0) is None && states[i][q].1[t]
                && states[i][q].0.rule < g.rules@.len() && c.action_table@[i]@[t] == reduce_action(g, states[i][q].0.rule as int),
        (forall|q: int| #![trigger states[i][q]]
            0 <= q < states[i].len() && onext(g, states[i][q].0) is None && states[i][q].1[t] && states[i][q].0.rule < g.rules@.len()
                ==> states[i][q].0.rule == states[i][j].0.rule)
            ==> c.action_table@[i]@[t] == reduce_action(g, states[i][j].0.rule as int),
{
    let s = states[i];
    assert(c.action_table@[i]@[t] == action_cell(g, s, nexts[i], t));
    lemma_last_reduce_found(g, s, t, j);
    lemma_last_reduce(g, s, t);
    let q = last_reduce(g, s, t)->0;
    assert(c.action_table@[i]@[t] == reduce_action(g, s[q].0.rule as int));
    assert(states[i][q] == s[q]);
}

/// In the builder's tables every complete item with the lookahead `EOF`
/// makes the end-of-input cell of its state an acceptance or a reduction:
/// acceptance where the deciding item is the start item, else the
/// reduction by its rule; by the item's own rule where every complete item
/// with `EOF` among its lookaheads has its rule.
pub proof fn lemma_set_tables_eof_reduces(
    c: LR1Configure,
    g: RuleSet,
    states: Seq<Seq<Entry>>,
    nexts: Seq<Seq<(RuleElem, usize)>>,
    i: int,
    j: int,
)
    requires
        c.matches(g, states, nexts),
        0 <= i < states.len(),
        0 <= j < states[i].len(),
        onext(g, states[i][j].0) is None,
        states[i][j].1[g.nt() + 1int],
    ensures
        c.eof_action_table@[i] is Reduce || c.eof_action_table@[i] is Accept,
        (forall|q: int| #![trigger states[i][q]]
            0 <= q < states[i].len() && onext(g, states[i][q].0) is None && states[i][q].1[g.nt() + 1int]
                ==> states[i][q].0.rule == states[i][j].0.rule)
            ==> c.eof_action_table@[i] == (if states[i][j].0.rule == g.rules@.len() {
                LRAction::Accept
            } else {
                reduce_action(g, states[i][j].0.rule as int)
            }),
{
    let s = states[i];
    let k: int = g.nt() + 1int;
    assert(c.eof_action_table@[i] == eof_cell(g, s));
    lemma_last_reduce_found(g, s, k, j);
    lemma_last_reduce(g, s, k);
    let q = last_reduce(g, s, k)->0;
    assert(states[i][q] == s[q]);
}

/// In the builder's tables a reduction in the cell of token `t` is that of a
/// complete item of the state (not the start item) with `t` among its
/// lookaheads; a reduction or acceptance at the end of the input is that of
/// a complete item with the lookahead `EOF`, acceptance exactly for the
/// start item.
pub proof fn lemma_set_tables_reduce_source(
    c: LR1Configure,
    g: RuleSet,
    states: Seq<Seq<Entry>>,
    nexts: Seq<Seq<(RuleElem, usize)>>,
    i: int,
    t: int,
)
    requires
        c.matches(g, states, nexts),
        0 <= i < states.len(),
        0 <= t < g.nt(),
    ensures
        c.action_table@[i]@[t] is Reduce ==> exists|q: int| #![trigger states[i][q]]
            0 <= q < states[i].len() && onext(g, states[i][q].0) is None && states[i][q].1[t]
                && states[i][q].0.rule < g.rules@.len() && c.action_table@[i]@[t] == reduce_action(g, states[i][q].0.rule as int),
        (c.eof_action_table@[i] is Reduce || c.eof_action_table@[i] is Accept) ==> exists|q: int| #![trigger states[i][q]]
            0 <= q < states[i].len() && onext(g, states[i][q].0) is None && states[i][q].1[g.nt() + 1int]
                && c.eof_action_table@[i] == (if states[i][q].0.rule == g.rules@.len() {
                    LRAction::Accept
                } else {
                    reduce_action(g, states[i][q].0.rule as int)
                }),
{
    let s = states[i];
    let k: int = g.nt() + 1int;
    assert(c.action_table@[i]@[t] == action_cell(g, s, nexts[i], t));
    assert(c.eof_action_table@[i] == eof_cell(g, s));
    lemma_last_reduce(g, s, t);
    lemma_last_reduce(g, s, k);
    if let Some(q) = last_reduce(g, s, t) {
        assert(states[i][q] == s[q]);
    }
    if let Some(q) = last_reduce(g, s, k) {
        assert(states[i][q] == s[q]);
    }
}

/// A parse of this parser reads the tokens in order and stops at
/// its first error: the positions of the events never go back and lie
/// within the input or at its end, two reads are never for the same token,
/// and every event but the last is a read or a reduction.
pub proof fn lemma_orun_reads_in_order(c: LR1Configure, stack: Seq<usize>, toks: Seq<usize>, pos: nat, fuel: nat)
    requires
        orun(c, stack, toks, pos, fuel) is Some,
        pos <= toks.len(),
    ensures
        forall|i: int| 0 <= i < orun(c, stack, toks, pos, fuel)->0.len() ==> pos <= (#[trigger] orun(c, stack, toks, pos, fuel)->0[i]).1 <= toks.len(),
        forall|i: int, j: int|
            0 <= i < j < orun(c, stack, toks, pos, fuel)->0.len() ==> (#[trigger] orun(c, stack, toks, pos, fuel)->0[i]).1 <= (#[trigger] orun(c, stack, toks, pos, fuel)->0[j]).1,
        forall|i: int, j: int|
            0 <= i < j < orun(c, stack, toks, pos, fuel)->0.len() && (#[trigger] orun(c, stack, toks, pos, fuel)->0[i]).0 is Read
                && (#[trigger] orun(c, stack, toks, pos, fuel)->0[j]).0 is Read ==> orun(c, stack, toks, pos, fuel)->0[i].1 < orun(c, stack, toks, pos, fuel)->0[j].1,
        forall|i: int| 0 <= i < orun(c, stack, toks, pos, fuel)->0.len() - 1 ==> (#[trigger] orun(c, stack, toks, pos, fuel)->0[i]).0 is Read
            || orun(c, stack, toks, pos, fuel)->0[i].0 is Parse,
    decreases fuel,
{
    let tok = kind_at(toks, pos);
    let all = orun(c, stack, toks, pos, fuel)->0;
    let (ev, st2, pos2) = match ocell(c, stack.last() as int, tok) {
        LRAction::Shift(j) => ((EventKind::Read, pos), stack.push(j), pos + 1),
        LRAction::Reduce(tag, m, len) => {
            let st1 = stack.subrange(0, stack.len() - len);
            ((EventKind::Parse(tag, len), pos), st1.push(c.goto_table@[st1.last() as int]@[m as int]), pos)
        },
        _ => ((EventKind::Read, pos), stack, pos),
    };
    let stepped = match ocell(c, stack.last() as int, tok) {
        LRAction::Shift(_) => tok is Some,
        LRAction::Reduce(_, _, len) => len < stack.len(),
        _ => false,
    };
    if stepped {
        assert(pos2 <= toks.len());
        lemma_orun_reads_in_order(c, st2, toks, pos2, (fuel - 1) as nat);
        let rest = orun(c, st2, toks, pos2, (fuel - 1) as nat)->0;
        assert(all == seq![ev] + rest);
        assert forall|i: int| 0 <= i < all.len() implies pos <= (#[trigger] all[i]).1 <= toks.len() by {
            if i > 0 {
                assert(all[i] == rest[i - 1]);
            }
        }
        assert forall|i: int, j: int| 0 <= i < j < all.len() implies (#[trigger] all[i]).1 <= (#[trigger] all[j]).1 by {
            assert(all[j] == rest[j - 1]);
            if i > 0 {
                assert(all[i] == rest[i - 1]);
            }
        }
        assert forall|i: int, j: int|
            0 <= i < j < all.len() && (#[trigger] all[i]).0 is Read && (#[trigger] all[j]).0 is Read implies all[i].1 < all[j].1 by {
            assert(all[j] == rest[j - 1]);
            if i > 0 {
                assert(all[i] == rest[i - 1]);
            }
        }
        assert forall|i: int| 0 <= i < all.len() - 1 implies (#[trigger] all[i]).0 is Read || all[i].0 is Parse by {
            if i > 0 {
                assert(all[i] == rest[i - 1]);
            }
        }
    }
}

/// The closure keeps every rule and dot position of the items it starts
/// from, and adds only predicted items (dot at the start of a rule of the
/// grammar).
pub proof fn lemma_oclosure_keeps(g: RuleSet, r: Seq<Entry>, f: Seq<Entry>)
    ensures
        forall|c: LR0Item| has_core(r, c) ==> #[trigger] has_core(oclosure(g, r, f), c),
        forall|c: LR0Item| #[trigger] has_core(oclosure(g, r, f), c) ==> has_core(r, c) || (c.dot_pos == 0 && c.rule < g.rules@.len()),
    decreases table_count_false(present_o(g, r)),
{
    let n = predicted(g, f);
    let r2 = merge_all(r, n);
    lemma_merge_all(r, n);
    lemma_predicted_cores(g, f);
    if r2.len() != r.len() {
        lemma_closure_progress(g, r, f);
        assert(oclosure(g, r, f) == oclosure(g, r2, n));
        lemma_oclosure_keeps(g, r2, n);
    } else {
        assert(oclosure(g, r, f) == r2);
    }
}

} // verus!
