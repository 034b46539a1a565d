//! A one-pass approximation of FIRST sets: each nonterminal starts with the
//! terminals that stand anywhere in the right sides of its rules, and then,
//! nonterminal by nonterminal in order, takes in the terminals gathered so
//! far for each nonterminal that stands in those right sides.
use vstd::prelude::*;
use crate::grammar::{RuleElem, RuleSet};

verus! {

/// The terminals of `s`, in order.
pub open spec fn terms_of(s: Seq<RuleElem>) -> Seq<usize>
    decreases s.len(),
{
    if s.len() == 0 {
        seq![]
    } else {
        let rest = terms_of(s.drop_last());
        match s.last() {
            RuleElem::Term(t) => rest.push(t),
            _ => rest,
        }
    }
}

/// The nonterminals of `s`, in order.
pub open spec fn nonterms_of(s: Seq<RuleElem>) -> Seq<usize>
    decreases s.len(),
{
    if s.len() == 0 {
        seq![]
    } else {
        let rest = nonterms_of(s.drop_last());
        match s.last() {
            RuleElem::NonTerm(n) => rest.push(n),
            _ => rest,
        }
    }
}

/// The terminals in the right sides of the first `k` rules whose left side
/// is `n`, in order.
pub open spec fn rhs_terms_upto(g: RuleSet, n: usize, k: nat) -> Seq<usize>
    decreases k,
{
    if k == 0 {
        seq![]
    } else {
        let rest = rhs_terms_upto(g, n, (k - 1) as nat);
        if g.rules@[k - 1].lhs == n {
            rest + terms_of(g.rules@[k - 1].rhs@)
        } else {
            rest
        }
    }
}

/// The nonterminals in the right sides of the first `k` rules whose left
/// side is `n`, in order.
pub open spec fn rhs_nonterms_upto(g: RuleSet, n: usize, k: nat) -> Seq<usize>
    decreases k,
{
    if k == 0 {
        seq![]
    } else {
        let rest = rhs_nonterms_upto(g, n, (k - 1) as nat);
        if g.rules@[k - 1].lhs == n {
            rest + nonterms_of(g.rules@[k - 1].rhs@)
        } else {
            rest
        }
    }
}

pub open spec fn rhs_terms(g: RuleSet, n: usize) -> Seq<usize> {
    rhs_terms_upto(g, n, g.rules@.len())
}

pub open spec fn rhs_nonterms(g: RuleSet, n: usize) -> Seq<usize> {
    rhs_nonterms_upto(g, n, g.rules@.len())
}

/// `lhs` with the elements of `cand` that it lacks appended in order.
pub open spec fn add_new(lhs: Seq<usize>, cand: Seq<usize>) -> Seq<usize>
    decreases cand.len(),
{
    if cand.len() == 0 {
        lhs
    } else {
        let a = add_new(lhs, cand.drop_last());
        if a.contains(cand.last()) {
            a
        } else {
            a.push(cand.last())
        }
    }
}

/// The sets after nonterminal `n` took in, one after another, the sets of
/// the nonterminals `ms`.
pub open spec fn take_in(map: Seq<Seq<usize>>, n: int, ms: Seq<usize>) -> Seq<Seq<usize>>
    decreases ms.len(),
{
    if ms.len() == 0 {
        map
    } else {
        let mp = take_in(map, n, ms.drop_last());
        mp.update(n, add_new(mp[n], mp[ms.last() as int]))
    }
}

/// The sets after the first `k` nonterminals took in the sets of the
/// nonterminals in their right sides.
pub open spec fn expand_upto(g: RuleSet, map: Seq<Seq<usize>>, k: nat) -> Seq<Seq<usize>>
    decreases k,
{
    if k == 0 {
        map
    } else {
        let mp = expand_upto(g, map, (k - 1) as nat);
        take_in(mp, k - 1, rhs_nonterms(g, (k - 1) as usize))
    }
}

/// The initial sets: the terminals in the right sides.
pub open spec fn initial_sets(g: RuleSet) -> Seq<Seq<usize>> {
    Seq::new(g.nn(), |n: int| rhs_terms(g, n as usize))
}

/// The sets of the grammar.
pub open spec fn rhs_first_sets(g: RuleSet) -> Seq<Seq<usize>> {
    expand_upto(g, initial_sets(g), g.nn())
}

/// Taking in only appends.
pub proof fn lemma_add_new_prefix(lhs: Seq<usize>, cand: Seq<usize>)
    ensures
        lhs.is_prefix_of(add_new(lhs, cand)),
    decreases cand.len(),
{
    if cand.len() > 0 {
        lemma_add_new_prefix(lhs, cand.drop_last());
    }
}

/// Taking in changes only the set of the nonterminal that takes in, and
/// only appends to it.
pub proof fn lemma_take_in_shape(map: Seq<Seq<usize>>, n: int, ms: Seq<usize>)
    requires
        0 <= n < map.len(),
        forall|j: int| 0 <= j < ms.len() ==> #[trigger] ms[j] < map.len(),
    ensures
        take_in(map, n, ms).len() == map.len(),
        forall|q: int| 0 <= q < map.len() && q != n ==> #[trigger] take_in(map, n, ms)[q] == map[q],
        map[n].is_prefix_of(take_in(map, n, ms)[n]),
    decreases ms.len(),
{
    if ms.len() > 0 {
        lemma_take_in_shape(map, n, ms.drop_last());
        let mp = take_in(map, n, ms.drop_last());
        lemma_add_new_prefix(mp[n], mp[ms.last() as int]);
    }
}

/// The pass only appends: every initial set is a prefix of the set it
/// becomes.
pub proof fn lemma_expand_shape(g: RuleSet, map: Seq<Seq<usize>>, k: nat)
    requires
        k <= map.len(),
        forall|n: int, j: int| 0 <= n < map.len() && 0 <= j < rhs_nonterms(g, n as usize).len() ==> #[trigger] rhs_nonterms(g, n as usize)[j] < map.len(),
    ensures
        expand_upto(g, map, k).len() == map.len(),
        forall|q: int| 0 <= q < map.len() ==> map[q].is_prefix_of(#[trigger] expand_upto(g, map, k)[q]),
    decreases k,
{
    if k > 0 {
        lemma_expand_shape(g, map, (k - 1) as nat);
        let mp = expand_upto(g, map, (k - 1) as nat);
        lemma_take_in_shape(mp, k - 1, rhs_nonterms(g, (k - 1) as usize));
        assert forall|q: int| 0 <= q < map.len() implies map[q].is_prefix_of(#[trigger] expand_upto(g, map, k)[q]) by {
            assert(map[q].is_prefix_of(mp[q]));
        }
    }
}

/// The one-pass FIRST approximation of a grammar: per nonterminal, a list of
/// terminals.
pub struct FirstSet<'a> {
    map: Vec<Vec<usize>>,
    ruleset: &'a RuleSet,
}

impl<'a> View for FirstSet<'a> {
    type V = Seq<Seq<usize>>;

    closed spec fn view(&self) -> Seq<Seq<usize>> {
        Seq::new(self.map@.len(), |n: int| self.map@[n]@)
    }
}

/// Whether `v` holds `x`.
fn vec_has(v: &Vec<usize>, x: usize) -> (res: bool)
    ensures
        res == v@.contains(x),
{
    let mut i: usize = 0;
    while i < v.len()
        invariant
            i <= v@.len(),
            forall|q: int| 0 <= q < i ==> v@[q] != x,
        decreases v@.len() - i,
    {
        if v[i] == x {
            assert(v@[i as int] == x);
            return true;
        }
        i = i + 1;
    }
    false
}

/// The terminals in the right sides of the rules of `n`.
fn rhs_terms_exec(g: &RuleSet, n: usize) -> (res: Vec<usize>)
    ensures
        res@ == rhs_terms(*g, n),
{
    let mut res: Vec<usize> = Vec::new();
    let mut k: usize = 0;
    while k < g.rules.len()
        invariant
            k <= g.rules@.len(),
            res@ == rhs_terms_upto(*g, n, k as nat),
        decreases g.rules@.len() - k,
    {
        if g.rules[k].lhs == n {
            let rhs = &g.rules[k].rhs;
            let ghost before = res@;
            let mut j: usize = 0;
            while j < rhs.len()
                invariant
                    j <= rhs@.len(),
                    res@ == before + terms_of(rhs@.subrange(0, j as int)),
                decreases rhs@.len() - j,
            {
                assert(rhs@.subrange(0, j + 1).drop_last() == rhs@.subrange(0, j as int));
                if let RuleElem::Term(t) = rhs[j] {
                    res.push(t);
                }
                j = j + 1;
            }
            assert(rhs@.subrange(0, rhs@.len() as int) == rhs@);
        }
        k = k + 1;
    }
    res
}

/// The nonterminals in the right sides of the rules of `n`.
fn rhs_nonterms_exec(g: &RuleSet, n: usize) -> (res: Vec<usize>)
    ensures
        res@ == rhs_nonterms(*g, n),
{
    let mut res: Vec<usize> = Vec::new();
    let mut k: usize = 0;
    while k < g.rules.len()
        invariant
            k <= g.rules@.len(),
            res@ == rhs_nonterms_upto(*g, n, k as nat),
        decreases g.rules@.len() - k,
    {
        if g.rules[k].lhs == n {
            let rhs = &g.rules[k].rhs;
            let ghost before = res@;
            let mut j: usize = 0;
            while j < rhs.len()
                invariant
                    j <= rhs@.len(),
                    res@ == before + nonterms_of(rhs@.subrange(0, j as int)),
                decreases rhs@.len() - j,
            {
                assert(rhs@.subrange(0, j + 1).drop_last() == rhs@.subrange(0, j as int));
                if let RuleElem::NonTerm(m) = rhs[j] {
                    res.push(m);
                }
                j = j + 1;
            }
            assert(rhs@.subrange(0, rhs@.len() as int) == rhs@);
        }
        k = k + 1;
    }
    res
}

/// Appends to `lhs` the elements of `cand` that it lacks, in order; tells
/// whether it appended any.
fn add_new_exec(lhs: &mut Vec<usize>, cand: &Vec<usize>) -> (pushed: bool)
    ensures
        final(lhs)@ == add_new(old(lhs)@, cand@),
        pushed == (final(lhs)@.len() != old(lhs)@.len()),
{
    let ghost l0 = lhs@;
    let mut pushed = false;
    let mut i: usize = 0;
    while i < cand.len()
        invariant
            i <= cand@.len(),
            lhs@ == add_new(l0, cand@.subrange(0, i as int)),
            pushed == (lhs@.len() != l0.len()),
            lhs@.len() >= l0.len(),
        decreases cand@.len() - i,
    {
        assert(cand@.subrange(0, i + 1).drop_last() == cand@.subrange(0, i as int));
        assert(cand@.subrange(0, i + 1).last() == cand@[i as int]);
        if !vec_has(lhs, cand[i]) {
            lhs.push(cand[i]);
            pushed = true;
        }
        i = i + 1;
    }
    assert(cand@.subrange(0, cand@.len() as int) == cand@);
    pushed
}

fn copy_vec(v: &Vec<usize>) -> (res: Vec<usize>)
    ensures
        res@ == v@,
{
    let mut res: Vec<usize> = Vec::new();
    let mut i: usize = 0;
    while i < v.len()
        invariant
            i <= v@.len(),
            res@ == v@.subrange(0, i as int),
        decreases v@.len() - i,
    {
        res.push(v[i]);
        i = i + 1;
    }
    res
}

impl<'a> FirstSet<'a> {
    /// The sets are those of a one-pass approximation of `ruleset`.
    pub closed spec fn spec_ruleset(&self) -> RuleSet {
        *self.ruleset
    }

    /// Builds the sets of the grammar: the terminals in the right sides of
    /// each nonterminal's rules, then one pass of taking in.
    pub fn try_from(ruleset: &'a RuleSet) -> (res: FirstSet<'a>)
        requires
            ruleset.wf(),
        ensures
            res@ == rhs_first_sets(*ruleset),
            res.spec_ruleset() == *ruleset,
    {
        let mut map: Vec<Vec<usize>> = Vec::new();
        let mut n: usize = 0;
        while n < ruleset.num_nonterms
            invariant
                n <= ruleset.nn(),
                map@.len() == n,
                forall|q: int| 0 <= q < n ==> (#[trigger] map@[q])@ == rhs_terms(*ruleset, q as usize),
            decreases ruleset.nn() - n,
        {
            map.push(rhs_terms_exec(ruleset, n));
            n = n + 1;
        }
        let mut first_set = FirstSet { map, ruleset };
        assert(first_set@ == initial_sets(*ruleset));
        let _ = first_set.expand();
        first_set
    }

    /// Each nonterminal, in order, takes in the sets of the nonterminals in
    /// the right sides of its rules, as far as they are gathered. Tells
    /// whether any set grew.
    fn expand(&mut self) -> (modified: bool)
        requires
            old(self).ruleset.wf(),
            old(self)@.len() == old(self).ruleset.nn(),
        ensures
            final(self).ruleset == old(self).ruleset,
            final(self)@ == expand_upto(*old(self).ruleset, old(self)@, old(self).ruleset.nn()),
            modified == (final(self)@ != old(self)@),
    {
        let g = self.ruleset;
        let ghost s0 = self@;
        proof {
            assert forall|n: int, j: int| 0 <= n < s0.len() && 0 <= j < rhs_nonterms(*g, n as usize).len() implies #[trigger] rhs_nonterms(*g, n as usize)[j] < s0.len() by {
                lemma_rhs_nonterms_valid(*g, n as usize, g.rules@.len());
            }
        }
        let mut modified = false;
        let mut n: usize = 0;
        while n < g.num_nonterms
            invariant
                self.ruleset == g,
                g.wf(),
                s0.len() == g.nn(),
                forall|n: int, j: int| 0 <= n < s0.len() && 0 <= j < rhs_nonterms(*g, n as usize).len() ==> #[trigger] rhs_nonterms(*g, n as usize)[j] < s0.len(),
                n <= g.nn(),
                self.map@.len() == g.nn(),
                self@ == expand_upto(*g, s0, n as nat),
                forall|q: int| n <= q < s0.len() ==> #[trigger] self@[q] == s0[q],
                forall|q: int| 0 <= q < s0.len() ==> s0[q].is_prefix_of(#[trigger] self@[q]),
                modified == (exists|q: int| 0 <= q < n && (#[trigger] self@[q]).len() != s0[q].len()),
            decreases g.nn() - n,
        {
            let ghost mp0 = self@;
            let ms = rhs_nonterms_exec(g, n);
            let mut lhs = copy_vec(&self.map[n]);
            let mut grew = false;
            let mut j: usize = 0;
            assert(self@[n as int] == self.map@[n as int]@);
            assert(take_in(mp0, n as int, ms@.subrange(0, 0)) == mp0.update(n as int, lhs@));
            assert forall|q: int| 0 <= q < ms@.len() implies #[trigger] ms@[q] < g.nn() by {
                assert(rhs_nonterms(*g, ((n as int) as usize))[q] < s0.len());
            }
            while j < ms.len()
                invariant
                    self.ruleset == g,
                    self@ == mp0,
                    self.map@.len() == g.nn(),
                    mp0.len() == g.nn(),
                    n < g.nn(),
                    forall|q: int| 0 <= q < ms@.len() ==> #[trigger] ms@[q] < g.nn(),
                    j <= ms@.len(),
                    take_in(mp0, n as int, ms@.subrange(0, j as int)) == mp0.update(n as int, lhs@),
                    mp0[n as int].is_prefix_of(lhs@),
                    grew == (lhs@.len() != mp0[n as int].len()),
                decreases ms@.len() - j,
            {
                let m = ms[j];
                assert(ms@.subrange(0, j + 1).drop_last() == ms@.subrange(0, j as int));
                assert(ms@.subrange(0, j + 1).last() == m);
                let cand = if m == n {
                    copy_vec(&lhs)
                } else {
                    assert(self@[m as int] == self.map@[m as int]@);
                    copy_vec(&self.map[m])
                };
                let ghost before = lhs@;
                let pushed = add_new_exec(&mut lhs, &cand);
                proof {
                    lemma_add_new_prefix(before, cand@);
                    assert(mp0.update(n as int, before)[m as int] == cand@);
                    assert(mp0.update(n as int, before).update(n as int, lhs@) == mp0.update(n as int, lhs@));
                }
                grew = grew || pushed;
                j = j + 1;
            }
            assert(ms@.subrange(0, ms@.len() as int) == ms@);
            let ghost old_view = self@;
            self.map.set(n, lhs);
            proof {
                assert(self@ == old_view.update(n as int, lhs@));
                lemma_expand_shape(*g, s0, n as nat);
                assert forall|q: int| 0 <= q < s0.len() implies s0[q].is_prefix_of(#[trigger] self@[q]) by {
                    if q == n {
                        assert(s0[q] == mp0[q]);
                    } else {
                        assert(self@[q] == mp0[q]);
                    }
                }
                if grew {
                    assert(self@[n as int].len() != s0[n as int].len());
                }
                assert(modified || grew <==> (exists|q: int| 0 <= q < n + 1 && (#[trigger] self@[q]).len() != s0[q].len())) by {
                    if exists|q: int| 0 <= q < n + 1 && (#[trigger] self@[q]).len() != s0[q].len() {
                        let q = choose|q: int| 0 <= q < n + 1 && (#[trigger] self@[q]).len() != s0[q].len();
                        if q < n {
                            assert(self@[q] == mp0[q]);
                        }
                    }
                    if modified {
                        let q = choose|q: int| 0 <= q < n && (#[trigger] mp0[q]).len() != s0[q].len();
                        assert(self@[q] == mp0[q]);
                    }
                }
            }
            modified = modified || grew;
            n = n + 1;
        }
        proof {
            if !modified {
                assert forall|q: int| 0 <= q < s0.len() implies #[trigger] self@[q] == s0[q] by {
                    assert(s0[q].is_prefix_of(self@[q]));
                    assert(self@[q] =~= s0[q]);
                }
                assert(self@ =~= s0);
            } else {
                let q = choose|q: int| 0 <= q < n && (#[trigger] self@[q]).len() != s0[q].len();
                assert(self@[q] != s0[q]);
            }
        }
        modified
    }

    /// The terminals gathered for nonterminal `nonterm`.
    pub fn get(&self, nonterm: usize) -> (res: Option<&[usize]>)
        ensures
            res is Some <==> nonterm < self@.len(),
            res matches Some(s) ==> s@ == self@[nonterm as int],
    {
        if nonterm < self.map.len() {
            Some(self.map[nonterm].as_slice())
        } else {
            None
        }
    }
}

/// The nonterminals in right sides are nonterminals of the grammar.
pub proof fn lemma_rhs_nonterms_valid(g: RuleSet, n: usize, k: nat)
    requires
        g.wf(),
        k <= g.rules@.len(),
    ensures
        forall|j: int| 0 <= j < rhs_nonterms_upto(g, n, k).len() ==> #[trigger] rhs_nonterms_upto(g, n, k)[j] < g.nn(),
    decreases k,
{
    if k > 0 {
        lemma_rhs_nonterms_valid(g, n, (k - 1) as nat);
        let rest = rhs_nonterms_upto(g, n, (k - 1) as nat);
        if g.rules@[k - 1].lhs == n {
            assert(g.rule_wf(k - 1));
            lemma_nonterms_of_valid(g, g.rules@[k - 1].rhs@);
            let all = rest + nonterms_of(g.rules@[k - 1].rhs@);
            assert forall|j: int| 0 <= j < all.len() implies #[trigger] all[j] < g.nn() by {
                if j >= rest.len() {
                    assert(all[j] == nonterms_of(g.rules@[k - 1].rhs@)[j - rest.len()]);
                }
            }
        }
    }
}

proof fn lemma_nonterms_of_valid(g: RuleSet, s: Seq<RuleElem>)
    requires
        forall|j: int| 0 <= j < s.len() ==> (#[trigger] s[j]).valid_in(g.nt(), g.nn()),
    ensures
        forall|j: int| 0 <= j < nonterms_of(s).len() ==> #[trigger] nonterms_of(s)[j] < g.nn(),
    decreases s.len(),
{
    if s.len() > 0 {
        let p = s.drop_last();
        assert forall|j: int| 0 <= j < p.len() implies (#[trigger] p[j]).valid_in(g.nt(), g.nn()) by {
            assert(p[j] == s[j]);
        }
        lemma_nonterms_of_valid(g, p);
        assert(s[s.len() - 1].valid_in(g.nt(), g.nn()));
        let rest = nonterms_of(p);
        if let RuleElem::NonTerm(m) = s.last() {
            assert forall|j: int| 0 <= j < rest.push(m).len() implies #[trigger] rest.push(m)[j] < g.nn() by {
                if j < rest.len() {
                    assert(rest.push(m)[j] == rest[j]);
                }
            }
        }
    }
}

} // verus!
