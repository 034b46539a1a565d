//! Filling the reduce and accept entries of a parse table.
//!
//! Each state gets a list of marks, one per completed item: "reduce by rule
//! `rule` on the lookahead set `las`, then, if `accept`, accept at the end
//! of the input". Marks are applied in order; a reduce entry may only go
//! into an empty cell or one that holds the same reduction, otherwise the
//! table has a conflict. Accepting overwrites the end-of-input cell.
use vstd::prelude::*;
use crate::error::is_conflict;
use crate::grammar::RuleSet;
use crate::table::{LRAction, LRTable, LRTableBuilder, cell_of, valid_tok, last_target, edges_valid};
use crate::grammar::RuleElem;
use crate::error::DiagnosticError;

verus! {

/// A reduce mark: rule, lookaheads (a row over the token kinds, `Epsilon`
/// and `EOF`), and whether the state also accepts.
pub struct Mark {
    pub rule: usize,
    pub las: Vec<bool>,
    pub accept: bool,
}

pub open spec fn mark_view(m: Mark) -> (usize, Seq<bool>, bool) {
    (m.rule, m.las@, m.accept)
}

/// The lookahead set holds `tok`.
pub open spec fn las_has(las: Seq<bool>, tok: Option<usize>, nt: nat) -> bool {
    match tok {
        Some(k) => las[k as int],
        None => las[nt + 1int],
    }
}

/// The cell `tok` after the marks, starting from `c`; `None` on a conflict.
pub open spec fn cell_after(c: LRAction, marks: Seq<(usize, Seq<bool>, bool)>, tok: Option<usize>, nt: nat) -> Option<LRAction>
    decreases marks.len(),
{
    if marks.len() == 0 {
        Some(c)
    } else {
        let (r, las, acc) = marks[0];
        let c1 = if las_has(las, tok, nt) {
            if c == LRAction::Empty || c == LRAction::Reduce(r) {
                Some(LRAction::Reduce(r))
            } else {
                None
            }
        } else {
            Some(c)
        };
        match c1 {
            None => None,
            Some(c2) => {
                let c3 = if acc && tok is None {
                    LRAction::Accept
                } else {
                    c2
                };
                cell_after(c3, marks.drop_first(), tok, nt)
            },
        }
    }
}

/// The cell of the table made from the shift entries of `edges` before any
/// mark.
pub open spec fn base_cell(edges: Seq<(usize, usize, RuleElem)>, s: int, tok: Option<usize>) -> LRAction {
    match tok {
        Some(k) => match last_target(edges, s, RuleElem::Term(k)) {
            Some(j) => LRAction::Shift(j),
            None => LRAction::Empty,
        },
        None => LRAction::Empty,
    }
}

pub open spec fn marks_valid(marks: Seq<(usize, Seq<bool>, bool)>, nt: nat, nrules: nat) -> bool {
    forall|i: int| 0 <= i < marks.len() ==> (#[trigger] marks[i]).1.len() == nt + 2 && marks[i].0 < nrules
}

/// All cells of all states come through their marks without conflict.
pub open spec fn table_conflict_free(edges: Seq<(usize, usize, RuleElem)>, marks: Seq<Seq<(usize, Seq<bool>, bool)>>, nt: nat) -> bool {
    forall|s: int, tok: Option<usize>|
        0 <= s < marks.len() && valid_tok(tok, nt) ==> (#[trigger] cell_after(base_cell(edges, s, tok), marks[s], tok, nt)) is Some
}

/// `t` is the table of the grammar `g`, the transitions `edges` and the
/// marks of each state.
pub open spec fn table_matches(
    t: LRTable,
    g: RuleSet,
    edges: Seq<(usize, usize, RuleElem)>,
    marks: Seq<Seq<(usize, Seq<bool>, bool)>>,
) -> bool {
    &&& t.wf()
    &&& t.num_states() == marks.len()
    &&& t.num_terms == g.num_terms
    &&& t.num_nonterms == g.num_nonterms
    &&& LRTableBuilder::rules_of(g, t.rules@)
    &&& forall|s: int, tok: Option<usize>|
        0 <= s < marks.len() && valid_tok(tok, g.nt()) ==> Some(#[trigger] t.action(s, tok)) == cell_after(
            base_cell(edges, s, tok),
            marks[s],
            tok,
            g.nt(),
        )
    &&& forall|s: int, m: int|
        0 <= s < marks.len() && 0 <= m < g.num_nonterms ==> #[trigger] t.goto_table@[s]@[m] == last_target(
            edges,
            s,
            RuleElem::NonTerm(m as usize),
        )
}

pub open spec fn marks_of(v: Seq<Mark>) -> Seq<(usize, Seq<bool>, bool)> {
    Seq::new(v.len(), |i: int| mark_view(v[i]))
}

/// Applies the marks of state `s`. Fails on the first conflict.
pub fn apply_marks(b: &mut LRTableBuilder, s: usize, marks: &Vec<Mark>) -> (res: Result<(), DiagnosticError>)
    requires
        old(b).shape_ok(),
        s < old(b).num_states(),
        old(b).num_terms + 2 < usize::MAX,
        marks_valid(marks_of(marks@), old(b).num_terms as nat, old(b).rules@.len()),
    ensures
        final(b).shape_ok(),
        final(b).num_states() == old(b).num_states(),
        final(b).num_terms == old(b).num_terms,
        final(b).num_nonterms == old(b).num_nonterms,
        final(b).rules == old(b).rules,
        final(b).goto_table == old(b).goto_table,
        forall|s2: int, tok: Option<usize>|
            0 <= s2 < old(b).num_states() && s2 != s && valid_tok(tok, old(b).num_terms as nat) ==> #[trigger] final(b).cell(s2, tok)
                == old(b).cell(s2, tok),
        res is Ok <==> forall|tok: Option<usize>|
            valid_tok(tok, old(b).num_terms as nat) ==> (#[trigger] cell_after(old(b).cell(s as int, tok), marks_of(marks@), tok, old(b).num_terms as nat)) is Some,
        res is Ok ==> forall|tok: Option<usize>|
            valid_tok(tok, old(b).num_terms as nat) ==> Some(#[trigger] final(b).cell(s as int, tok)) == cell_after(
                old(b).cell(s as int, tok),
                marks_of(marks@),
                tok,
                old(b).num_terms as nat,
            ),
        res matches Err(e) ==> is_conflict(e),
{
    let ghost b0 = *b;
    let ghost ms = marks_of(marks@);
    let ghost nt = b.num_terms as nat;
    let ntu = b.num_terms;
    let mut m: usize = 0;
    assert(ms.skip(0) == ms);
    while m < marks.len()
        invariant
            b0 == *old(b),
            nt == b0.num_terms,
            b.shape_ok(),
            b.num_states() == b0.num_states(),
            b.num_terms == b0.num_terms,
            b.num_nonterms == b0.num_nonterms,
            b.rules == b0.rules,
            b.goto_table == b0.goto_table,
            s < b0.num_states(),
            ntu == nt,
            nt + 2 < usize::MAX,
            ms == marks_of(marks@),
            marks_valid(ms, nt, b0.rules@.len()),
            m <= marks@.len(),
            forall|s2: int, tok: Option<usize>|
                0 <= s2 < b0.num_states() && s2 != s && valid_tok(tok, nt) ==> #[trigger] b.cell(s2, tok) == b0.cell(s2, tok),
            forall|tok: Option<usize>|
                valid_tok(tok, nt) ==> #[trigger] cell_after(b0.cell(s as int, tok), ms, tok, nt) == cell_after(
                    b.cell(s as int, tok),
                    ms.skip(m as int),
                    tok,
                    nt,
                ),
        decreases marks@.len() - m,
    {
        let mark = &marks[m];
        let rule = mark.rule;
        let ghost mv = ms[m as int];
        assert(mv == mark_view(*mark));
        assert(ms.skip(m as int)[0] == mv);
        assert(ms.skip(m as int).drop_first() == ms.skip(m + 1));
        assert(mark.las@.len() == nt + 2);
        let ghost bm = *b;
        // tokens
        let mut k: usize = 0;
        while k < ntu + 2
            invariant
                b0 == *old(b),
                nt == b0.num_terms,
                b.shape_ok(),
                bm.shape_ok(),
                bm.num_states() == b0.num_states(),
                bm.num_terms == b0.num_terms,
                forall|s2: int, tok: Option<usize>|
                    0 <= s2 < b0.num_states() && s2 != s && valid_tok(tok, nt) ==> #[trigger] bm.cell(s2, tok) == b0.cell(s2, tok),
                forall|tok: Option<usize>|
                    valid_tok(tok, nt) ==> #[trigger] cell_after(b0.cell(s as int, tok), ms, tok, nt) == cell_after(
                        bm.cell(s as int, tok),
                        ms.skip(m as int),
                        tok,
                        nt,
                    ),
                ms.skip(m as int)[0] == mv,
                ms == marks_of(marks@),
                m < marks@.len(),
                ms.len() == marks@.len(),
                rule == mark.rule,
                *mark == marks@[m as int],
                b.num_states() == b0.num_states(),
                b.num_terms == b0.num_terms,
                b.num_nonterms == b0.num_nonterms,
                b.rules == b0.rules,
                b.goto_table == b0.goto_table,
                s < b0.num_states(),
                ntu == nt,
                nt + 2 < usize::MAX,
                mark.las@.len() == nt + 2,
                mv == mark_view(*mark),
                k <= ntu + 2,
                forall|s2: int, tok: Option<usize>|
                    0 <= s2 < b0.num_states() && s2 != s && valid_tok(tok, nt) ==> #[trigger] b.cell(s2, tok) == bm.cell(s2, tok),
                // cells not yet visited in this mark
                forall|kk: int| k <= kk < ntu && kk < ntu ==> #[trigger] b.cell(s as int, Some(kk as usize)) == bm.cell(s as int, Some(kk as usize)),
                k <= ntu + 1 ==> b.cell(s as int, None) == bm.cell(s as int, None),
                // cells visited in this mark
                forall|kk: int| 0 <= kk < k && kk < ntu ==> Some(#[trigger] b.cell(s as int, Some(kk as usize))) == step_reduce(
                    bm.cell(s as int, Some(kk as usize)),
                    rule,
                    mark.las@,
                    Some(kk as usize),
                    nt,
                ),
                k == ntu + 2 ==> Some(b.cell(s as int, None)) == step_reduce(bm.cell(s as int, None), rule, mark.las@, None, nt),
            decreases ntu + 2 - k,
        {
            if k == ntu {
                k = k + 1;
                continue;
            }
            let tok: Option<usize> = if k < ntu { Some(k) } else { None };
            proof {
                if k < ntu {
                    assert(b.cell(s as int, Some((k as int) as usize)) == bm.cell(s as int, Some((k as int) as usize)));
                } else {
                    assert(k == ntu + 1);
                }
                assert(b.cell(s as int, tok) == bm.cell(s as int, tok));
                assert(las_has(mark.las@, tok, nt) == mark.las@[k as int]);
            }
            if mark.las[k] {
                let r = b.try_set(s, tok, LRAction::Reduce(rule));
                match r {
                    Ok(()) => {},
                    Err(e) => {
                        proof {
                            assert(step_reduce(bm.cell(s as int, tok), rule, mark.las@, tok, nt) is None);
                            assert(ms.skip(m as int).len() > 0);
                            assert(ms.skip(m as int)[0] == (rule, mark.las@, mark.accept));
                            assert(cell_after(bm.cell(s as int, tok), ms.skip(m as int), tok, nt) is None);
                            assert(cell_after(b0.cell(s as int, tok), ms, tok, nt) == cell_after(bm.cell(s as int, tok), ms.skip(m as int), tok, nt));
                            assert(cell_after(b0.cell(s as int, tok), ms, tok, nt) is None);
                            assert(valid_tok(tok, old(b).num_terms as nat));
                            assert(!(cell_after(old(b).cell(s as int, tok), marks_of(marks@), tok, old(b).num_terms as nat) is Some));
                        }
                        return Err(e);
                    },
                }
            }
            k = k + 1;
        }
        let ghost bk = *b;
        if mark.accept {
            b.set(s, None, LRAction::Accept);
        }
        proof {
            assert forall|kk: int| 0 <= kk < ntu implies Some(#[trigger] b.cell(s as int, Some(kk as usize))) == step_reduce(
                bm.cell(s as int, Some(kk as usize)), rule, mark.las@, Some(kk as usize), nt) by {
                assert(b.cell(s as int, Some(kk as usize)) == bk.cell(s as int, Some(kk as usize)));
                assert(Some(bk.cell(s as int, Some(kk as usize))) == step_reduce(bm.cell(s as int, Some(kk as usize)), rule, mark.las@, Some(kk as usize), nt));
            }
            assert(Some(bk.cell(s as int, None)) == step_reduce(bm.cell(s as int, None), rule, mark.las@, None, nt));
            assert forall|s2: int, tok: Option<usize>|
                0 <= s2 < b0.num_states() && s2 != s && valid_tok(tok, nt) implies #[trigger] b.cell(s2, tok) == b0.cell(s2, tok) by {
                assert(b.cell(s2, tok) == bk.cell(s2, tok));
                assert(bk.cell(s2, tok) == bm.cell(s2, tok));
            }
            assert forall|tok: Option<usize>|
                valid_tok(tok, nt) implies #[trigger] cell_after(b0.cell(s as int, tok), ms, tok, nt) == cell_after(
                b.cell(s as int, tok),
                ms.skip(m + 1),
                tok,
                nt,
            ) by {
                assert(cell_after(b0.cell(s as int, tok), ms, tok, nt) == cell_after(bm.cell(s as int, tok), ms.skip(m as int), tok, nt));
                match tok {
                    Some(kk) => {
                        assert(Some(b.cell(s as int, Some(((kk as int) as usize)))) == step_reduce(bm.cell(s as int, Some((kk as int) as usize)), rule, mark.las@, Some((kk as int) as usize), nt));
                    },
                    None => {},
                }
            }
        }
        m = m + 1;
    }
    proof {
        assert forall|tok: Option<usize>| valid_tok(tok, nt) implies #[trigger] cell_after(b0.cell(s as int, tok), ms, tok, nt) == Some(b.cell(s as int, tok)) by {
            assert(ms.skip(m as int).len() == 0);
        }
    }
    Ok(())
}

/// The reduce step of one mark on one cell; `None` on a conflict.
pub open spec fn step_reduce(c: LRAction, r: usize, las: Seq<bool>, tok: Option<usize>, nt: nat) -> Option<LRAction> {
    if las_has(las, tok, nt) {
        if c == LRAction::Empty || c == LRAction::Reduce(r) {
            Some(LRAction::Reduce(r))
        } else {
            None
        }
    } else {
        Some(c)
    }
}

/// A cell that starts out naming an existing state or rule still does so
/// after valid marks.
pub proof fn lemma_cell_after_ok(t: LRTable, c: LRAction, marks: Seq<(usize, Seq<bool>, bool)>, tok: Option<usize>, nt: nat)
    requires
        t.action_ok(c),
        marks_valid(marks, nt, t.rules@.len()),
        cell_after(c, marks, tok, nt) is Some,
    ensures
        t.action_ok(cell_after(c, marks, tok, nt)->0),
    decreases marks.len(),
{
    if marks.len() > 0 {
        let (r, las, acc) = marks[0];
        assert(marks_valid(marks.drop_first(), nt, t.rules@.len())) by {
            assert forall|i: int| 0 <= i < marks.drop_first().len() implies (#[trigger] marks.drop_first()[i]).1.len() == nt + 2
                && marks.drop_first()[i].0 < t.rules@.len() by {
                assert(marks.drop_first()[i] == marks[i + 1]);
            }
        }
        let c1 = if las_has(las, tok, nt) {
            if c == LRAction::Empty || c == LRAction::Reduce(r) {
                Some(LRAction::Reduce(r))
            } else {
                None
            }
        } else {
            Some(c)
        };
        let c2 = c1->0;
        let c3 = if acc && tok is None { LRAction::Accept } else { c2 };
        lemma_cell_after_ok(t, c3, marks.drop_first(), tok, nt);
    }
}

/// Builds the table of a grammar from the transitions of its automaton and
/// the marks of each state, state by state; fails on the first conflict.
pub fn build_table(g: &RuleSet, edges: &Vec<(usize, usize, RuleElem)>, marks: &Vec<Vec<Mark>>) -> (res: Result<LRTable, DiagnosticError>)
    requires
        g.wf(),
        marks@.len() > 0,
        edges_valid(edges@, marks@.len() as nat, g.nt(), g.nn()),
        forall|s: int| 0 <= s < marks@.len() ==> marks_valid(marks_of((#[trigger] marks@[s])@), g.nt(), g.rules@.len()),
    ensures
        res is Ok <==> table_conflict_free(edges@, Seq::new(marks@.len(), |s: int| marks_of(marks@[s]@)), g.nt()),
        res matches Ok(t) ==> table_matches(t, *g, edges@, Seq::new(marks@.len(), |s: int| marks_of(marks@[s]@))),
        res matches Err(e) ==> is_conflict(e),
{
    let ghost all = Seq::new(marks@.len(), |s: int| marks_of(marks@[s]@));
    let n = marks.len();
    let mut b = LRTableBuilder::from(g, n, edges);
    let ghost b0 = b;
    assert forall|s2: int, tok: Option<usize>| 0 <= s2 < n && valid_tok(tok, g.nt()) implies #[trigger] b0.cell(s2, tok) == base_cell(edges@, s2, tok) by {
        match tok {
            Some(k) => {
                assert(b0.cell(s2, Some((k as int) as usize)) == match last_target(edges@, s2, RuleElem::Term((k as int) as usize)) {
                    Some(j) => LRAction::Shift(j),
                    None => LRAction::Empty,
                });
            },
            None => {},
        }
    }
    let mut s: usize = 0;
    while s < n
        invariant
            g.wf(),
            n == marks@.len(),
            all == Seq::new(marks@.len(), |s: int| marks_of(marks@[s]@)),
            forall|s: int| 0 <= s < marks@.len() ==> marks_valid(marks_of((#[trigger] marks@[s])@), g.nt(), g.rules@.len()),
            b.shape_ok(),
            b.num_states() == n,
            b.num_terms == g.num_terms,
            b.num_nonterms == g.num_nonterms,
            b.rules == b0.rules,
            b.goto_table == b0.goto_table,
            LRTableBuilder::rules_of(*g, b.rules@),
            s <= n,
            forall|s2: int, tok: Option<usize>| 0 <= s2 < n && valid_tok(tok, g.nt()) ==> #[trigger] b0.cell(s2, tok) == base_cell(edges@, s2, tok),
            forall|s2: int, tok: Option<usize>|
                s <= s2 < n && valid_tok(tok, g.nt()) ==> #[trigger] b.cell(s2, tok) == b0.cell(s2, tok),
            forall|s2: int, tok: Option<usize>|
                0 <= s2 < s && valid_tok(tok, g.nt()) ==> Some(#[trigger] b.cell(s2, tok)) == cell_after(base_cell(edges@, s2, tok), all[s2], tok, g.nt()),
        decreases n - s,
    {
        proof {
            assert(marks_valid(marks_of(marks@[s as int]@), g.nt(), g.rules@.len()));
        }
        let ghost bs = b;
        let r = apply_marks(&mut b, s, &marks[s]);
        match r {
            Ok(()) => {
                proof {
                    assert forall|s2: int, tok: Option<usize>|
                        0 <= s2 < s + 1 && valid_tok(tok, g.nt()) implies Some(#[trigger] b.cell(s2, tok)) == cell_after(base_cell(edges@, s2, tok), all[s2], tok, g.nt()) by {
                        if s2 < s {
                            assert(b.cell(s2, tok) == bs.cell(s2, tok));
                        } else {
                            assert(bs.cell(s2, tok) == base_cell(edges@, s2, tok));
                            assert(all[s2] == marks_of(marks@[s as int]@));
                        }
                    }
                }
            },
            Err(e) => {
                proof {
                    let tok = choose|tok: Option<usize>| valid_tok(tok, g.nt()) && !((#[trigger] cell_after(bs.cell(s as int, tok), marks_of(marks@[s as int]@), tok, g.nt())) is Some);
                    assert(bs.cell(s as int, tok) == base_cell(edges@, s as int, tok));
                    assert(all[s as int] == marks_of(marks@[s as int]@));
                    assert(cell_after(base_cell(edges@, s as int, tok), all[s as int], tok, g.nt()) is None);
                }
                return Err(e);
            },
        }
        s = s + 1;
    }
    let t = b.build();
    proof {
        assert forall|s2: int, k: int| 0 <= s2 < t.num_states() && 0 <= k < t.num_terms implies t.action_ok(#[trigger] t.action_table@[s2]@[k]) by {
            let tok = Some(k as usize);
            assert(t.action(s2, tok) == t.action_table@[s2]@[k]);
            assert(Some(b.cell(s2, tok)) == cell_after(base_cell(edges@, s2, tok), all[s2], tok, g.nt()));
            crate::table::lemma_last_target(edges@, s2, RuleElem::Term(k as usize));
            if last_target(edges@, s2, RuleElem::Term(k as usize)) is Some {
                let j = last_target(edges@, s2, RuleElem::Term(k as usize))->0;
                let q = choose|q: int| 0 <= q < edges@.len() && edges@[q] == (s2 as usize, j, RuleElem::Term(k as usize));
                assert(edges@[q].1 < n);
            }
            assert(t.action_ok(base_cell(edges@, s2, tok)));
            lemma_cell_after_ok(t, base_cell(edges@, s2, tok), all[s2], tok, g.nt());
        }
        assert forall|s2: int| 0 <= s2 < t.num_states() implies t.action_ok(#[trigger] t.eof_action_table@[s2]) by {
            let tok: Option<usize> = None;
            assert(Some(b.cell(s2, tok)) == cell_after(base_cell(edges@, s2, tok), all[s2], tok, g.nt()));
            lemma_cell_after_ok(t, base_cell(edges@, s2, tok), all[s2], tok, g.nt());
        }
        assert forall|s2: int, m: int| 0 <= s2 < t.num_states() && 0 <= m < t.num_nonterms implies (#[trigger] t.goto_table@[s2]@[m] matches Some(j) ==> j < t.num_states()) by {
            crate::table::lemma_last_target(edges@, s2, RuleElem::NonTerm(m as usize));
            if last_target(edges@, s2, RuleElem::NonTerm(m as usize)) is Some {
                let j = last_target(edges@, s2, RuleElem::NonTerm(m as usize))->0;
                let q = choose|q: int| 0 <= q < edges@.len() && edges@[q] == (s2 as usize, j, RuleElem::NonTerm(m as usize));
                assert(edges@[q].1 < n);
            }
        }
        assert forall|r: int| 0 <= r < t.rules@.len() implies (#[trigger] t.rules@[r]).0 < t.num_nonterms by {
            assert(g.rule_wf(r));
        }
        assert(t.wf());
        assert(t.num_states() == all.len());
        assert forall|s2: int, tok: Option<usize>|
            0 <= s2 < all.len() && valid_tok(tok, g.nt()) implies Some(#[trigger] t.action(s2, tok)) == cell_after(
                base_cell(edges@, s2, tok), all[s2], tok, g.nt()) by {
            assert(t.action(s2, tok) == b.cell(s2, tok));
        }
        assert forall|s2: int, m: int|
            0 <= s2 < all.len() && 0 <= m < g.num_nonterms implies #[trigger] t.goto_table@[s2]@[m] == last_target(
                edges@, s2, RuleElem::NonTerm(m as usize)) by {
            assert(t.goto_table@[s2]@[m] == b0.goto_table@[s2]@[m]);
        }
        assert forall|s2: int, tok: Option<usize>|
            0 <= s2 < all.len() && valid_tok(tok, g.nt()) implies (#[trigger] cell_after(base_cell(edges@, s2, tok), all[s2], tok, g.nt())) is Some by {
            assert(Some(b.cell(s2, tok)) == cell_after(base_cell(edges@, s2, tok), all[s2], tok, g.nt()));
        }
    }
    Ok(t)
}

/// Marks never put `Accept` into a token column: a cell for a token that
/// does not start as `Accept` does not end as `Accept`.
pub proof fn lemma_cell_after_token_not_accept(c: LRAction, marks: Seq<(usize, Seq<bool>, bool)>, k: usize, nt: nat)
    requires
        c != LRAction::Accept,
        cell_after(c, marks, Some(k), nt) is Some,
    ensures
        cell_after(c, marks, Some(k), nt)->0 != LRAction::Accept,
    decreases marks.len(),
{
    if marks.len() > 0 {
        let (r, las, acc) = marks[0];
        let c1 = if las_has(las, Some(k), nt) {
            if c == LRAction::Empty || c == LRAction::Reduce(r) {
                Some(LRAction::Reduce(r))
            } else {
                None
            }
        } else {
            Some(c)
        };
        lemma_cell_after_token_not_accept(c1->0, marks.drop_first(), k, nt);
    }
}

/// In a table built from transitions and marks, no token column holds
/// `Accept`: the input is accepted only at its end.
pub proof fn lemma_accept_only_at_end(
    t: LRTable,
    g: RuleSet,
    edges: Seq<(usize, usize, RuleElem)>,
    marks: Seq<Seq<(usize, Seq<bool>, bool)>>,
    s: int,
    k: usize,
)
    requires
        table_matches(t, g, edges, marks),
        0 <= s < t.num_states(),
        k < g.num_terms,
    ensures
        t.action(s, Some(k)) != LRAction::Accept,
{
    assert(valid_tok(Some(k), g.nt()));
    assert(Some(t.action(s, Some(k))) == cell_after(base_cell(edges, s, Some(k)), marks[s], Some(k), g.nt()));
    lemma_cell_after_token_not_accept(base_cell(edges, s, Some(k)), marks[s], k, g.nt());
}

/// A cell that holds a reduction keeps it through further marks on a token
/// column, or the marks conflict.
pub proof fn lemma_cell_after_keeps(r: usize, marks: Seq<(usize, Seq<bool>, bool)>, k: usize, nt: nat)
    requires
        cell_after(LRAction::Reduce(r), marks, Some(k), nt) is Some,
    ensures
        cell_after(LRAction::Reduce(r), marks, Some(k), nt) == Some(LRAction::Reduce(r)),
    decreases marks.len(),
{
    if marks.len() > 0 {
        lemma_cell_after_keeps(r, marks.drop_first(), k, nt);
    }
}

/// A cell that holds a shift keeps it through further marks on a token
/// column, or the marks conflict.
pub proof fn lemma_cell_after_shift_kept(j: usize, marks: Seq<(usize, Seq<bool>, bool)>, k: usize, nt: nat)
    requires
        cell_after(LRAction::Shift(j), marks, Some(k), nt) is Some,
    ensures
        cell_after(LRAction::Shift(j), marks, Some(k), nt) == Some(LRAction::Shift(j)),
    decreases marks.len(),
{
    if marks.len() > 0 {
        lemma_cell_after_shift_kept(j, marks.drop_first(), k, nt);
    }
}

/// At the end of the input a cell that holds `Accept` keeps it through
/// further marks, or the marks conflict.
pub proof fn lemma_cell_after_accept_kept(marks: Seq<(usize, Seq<bool>, bool)>, nt: nat)
    requires
        cell_after(LRAction::Accept, marks, None, nt) is Some,
    ensures
        cell_after(LRAction::Accept, marks, None, nt) == Some(LRAction::Accept),
    decreases marks.len(),
{
    if marks.len() > 0 {
        lemma_cell_after_accept_kept(marks.drop_first(), nt);
    }
}

/// At the end of the input, a table made without conflict holds `Accept`
/// where one of the marks accepts.
pub proof fn lemma_cell_after_accepts(c: LRAction, marks: Seq<(usize, Seq<bool>, bool)>, nt: nat, m: int)
    requires
        cell_after(c, marks, None, nt) is Some,
        0 <= m < marks.len(),
        marks[m].2,
    ensures
        cell_after(c, marks, None, nt) == Some(LRAction::Accept),
    decreases marks.len(),
{
    let (r, las, acc) = marks[0];
    let c1 = if las_has(las, None, nt) {
        if c == LRAction::Empty || c == LRAction::Reduce(r) {
            Some(LRAction::Reduce(r))
        } else {
            None
        }
    } else {
        Some(c)
    };
    assert(c1 is Some);
    let c3 = if acc { LRAction::Accept } else { c1->0 };
    if m == 0 {
        lemma_cell_after_accept_kept(marks.drop_first(), nt);
    } else {
        assert(marks.drop_first()[m - 1] == marks[m]);
        lemma_cell_after_accepts(c3, marks.drop_first(), nt, m - 1);
    }
}

/// On a token column, a table made without conflict holds, for every mark
/// whose lookaheads hold the token, the reduction by that mark's rule.
pub proof fn lemma_cell_after_reduces(c: LRAction, marks: Seq<(usize, Seq<bool>, bool)>, k: usize, nt: nat, m: int)
    requires
        cell_after(c, marks, Some(k), nt) is Some,
        0 <= m < marks.len(),
        las_has(marks[m].1, Some(k), nt),
    ensures
        cell_after(c, marks, Some(k), nt) == Some(LRAction::Reduce(marks[m].0)),
    decreases marks.len(),
{
    let (r, las, acc) = marks[0];
    let c1 = if las_has(las, Some(k), nt) {
        if c == LRAction::Empty || c == LRAction::Reduce(r) {
            Some(LRAction::Reduce(r))
        } else {
            None
        }
    } else {
        Some(c)
    };
    assert(c1 is Some);
    if m == 0 {
        lemma_cell_after_keeps(r, marks.drop_first(), k, nt);
    } else {
        assert(marks.drop_first()[m - 1] == marks[m]);
        lemma_cell_after_reduces(c1->0, marks.drop_first(), k, nt, m - 1);
    }
}

/// A reduction in a cell that did not hold it before the marks comes from a
/// mark by that rule whose lookaheads hold the cell's token (or the end of
/// the input).
pub proof fn lemma_cell_after_source(c: LRAction, marks: Seq<(usize, Seq<bool>, bool)>, tok: Option<usize>, nt: nat, r: usize)
    requires
        cell_after(c, marks, tok, nt) == Some(LRAction::Reduce(r)),
        c != LRAction::Reduce(r),
    ensures
        exists|m: int| 0 <= m < marks.len() && (#[trigger] marks[m]).0 == r && las_has(marks[m].1, tok, nt),
    decreases marks.len(),
{
    if marks.len() > 0 {
        let (r0, las, acc) = marks[0];
        let c1 = if las_has(las, tok, nt) {
            if c == LRAction::Empty || c == LRAction::Reduce(r0) {
                Some(LRAction::Reduce(r0))
            } else {
                None
            }
        } else {
            Some(c)
        };
        let c3 = if acc && tok is None { LRAction::Accept } else { c1->0 };
        if r0 == r && las_has(las, tok, nt) {
            assert(marks[0].0 == r);
        } else {
            lemma_cell_after_source(c3, marks.drop_first(), tok, nt, r);
            let m = choose|m: int| 0 <= m < marks.drop_first().len() && (#[trigger] marks.drop_first()[m]).0 == r && las_has(marks.drop_first()[m].1, tok, nt);
            assert(marks[m + 1] == marks.drop_first()[m]);
        }
    }
}

} // verus!
