//! Running the LR driver over a whole token sequence.
use vstd::prelude::*;
use crate::token::Token;
use crate::table::LRTable;
use crate::driver::{LRDriver, ParseEvent, EventKind, drive, event_matches, stack_ok, error_kind, prepend};
use crate::table::LRAction;

verus! {

/// The token kinds of a token sequence.
pub open spec fn kinds_of(tokens: Seq<Token>) -> Seq<usize> {
    Seq::new(tokens.len(), |i: int| tokens[i].kind)
}

/// The token at `pos`, or `None` past the end of the input.
pub open spec fn token_at<'a>(tokens: Seq<Token<'a>>, pos: int) -> Option<Token<'a>> {
    if 0 <= pos < tokens.len() {
        Some(tokens[pos])
    } else {
        None
    }
}

pub open spec fn kind_at(toks: Seq<usize>, pos: nat) -> Option<usize> {
    if pos < toks.len() {
        Some(toks[pos as int])
    } else {
        None
    }
}

/// The events of a parse from `stack` that reads the token kinds `toks` from
/// position `pos` on, each with the position of the token (or, past the
/// end, of the end of the input) it was produced for. After a token that is
/// shifted or rejected the parse goes on with the next one; it ends when the
/// input is accepted or the end of the input is rejected. `None` when
/// `fuel` does not suffice.
pub open spec fn run_from(t: LRTable, stack: Seq<usize>, toks: Seq<usize>, pos: nat, fuel: nat) -> Option<Seq<(EventKind, nat)>>
    decreases fuel,
{
    if fuel == 0 {
        None
    } else {
        let tok = kind_at(toks, pos);
        match drive(t, stack, tok, fuel) {
            None => None,
            Some((kinds, st2, acc)) => {
                let evs = Seq::new(kinds.len(), |i: int| (kinds[i], pos));
                if acc || tok is None {
                    Some(evs)
                } else {
                    match run_from(t, st2, toks, pos + 1, (fuel - 1) as nat) {
                        Some(rest) => Some(evs + rest),
                        None => None,
                    }
                }
            },
        }
    }
}

/// The whole parse of `tokens` from the start state.
pub open spec fn parse_run(t: LRTable, tokens: Seq<Token>, fuel: nat) -> Option<Seq<(EventKind, nat)>> {
    run_from(t, seq![0usize], kinds_of(tokens), 0, fuel)
}

/// `events` are the events `evs`, each for the token at its position.
pub open spec fn events_match<'a>(events: Seq<ParseEvent<'a>>, evs: Seq<(EventKind, nat)>, tokens: Seq<Token<'a>>) -> bool {
    &&& events.len() == evs.len()
    &&& forall|i: int| 0 <= i < evs.len() ==> event_matches(#[trigger] events[i], evs[i].0, token_at(tokens, evs[i].1 as int))
}

/// More fuel does not change a step that had enough.
pub proof fn lemma_drive_mono(t: LRTable, stack: Seq<usize>, tok: Option<usize>, f1: nat, f2: nat)
    requires
        drive(t, stack, tok, f1) is Some,
        f1 <= f2,
    ensures
        drive(t, stack, tok, f2) == drive(t, stack, tok, f1),
    decreases f1,
{
    let top = stack.last();
    match t.action(top as int, tok) {
        crate::table::LRAction::Reduce(r) => {
            let (lhs, len, tag) = t.rules@[r as int];
            if len < stack.len() {
                let st1 = stack.subrange(0, stack.len() - len);
                match t.goto_table@[st1.last() as int]@[lhs as int] {
                    Some(j) => {
                        lemma_drive_mono(t, st1.push(j), tok, (f1 - 1) as nat, (f2 - 1) as nat);
                    },
                    None => {},
                }
            }
        },
        _ => {},
    }
}

/// Runs the parser of `table` over `tokens`: feeds the tokens one by one to
/// a driver in the start state, then the end of the input, and collects the
/// events, until the input is accepted or the end of the input is rejected.
pub open spec fn after(done: Seq<(EventKind, nat)>, rest: Option<Seq<(EventKind, nat)>>) -> Option<Seq<(EventKind, nat)>> {
    match rest {
        Some(r) => Some(done + r),
        None => None,
    }
}

/// The events of one step of the driver.
pub open spec fn drive_events(t: LRTable, stack: Seq<usize>, tok: Option<usize>, fuel: nat) -> Seq<EventKind> {
    match drive(t, stack, tok, fuel) {
        Some((kinds, _, _)) => kinds,
        None => seq![],
    }
}

/// One step of the driver reduces some number of times and then reads,
/// accepts or rejects: every event but the last is a reduction.
pub proof fn lemma_drive_shape(t: LRTable, stack: Seq<usize>, tok: Option<usize>, fuel: nat)
    requires
        drive(t, stack, tok, fuel) is Some,
    ensures
        forall|i: int| 0 <= i < drive_events(t, stack, tok, fuel).len() - 1 ==> (#[trigger] drive_events(t, stack, tok, fuel)[i]) is Parse,
        drive_events(t, stack, tok, fuel).len() > 0 && drive_events(t, stack, tok, fuel).last() is Read ==> tok is Some,
    decreases fuel,
{
    let top = stack.last();
    match t.action(top as int, tok) {
        crate::table::LRAction::Reduce(r) => {
            let (lhs, len, tag) = t.rules@[r as int];
            if len < stack.len() {
                let st1 = stack.subrange(0, stack.len() - len);
                match t.goto_table@[st1.last() as int]@[lhs as int] {
                    Some(j) => {
                        lemma_drive_shape(t, st1.push(j), tok, (fuel - 1) as nat);
                        let rest = drive_events(t, st1.push(j), tok, (fuel - 1) as nat);
                        let all = drive_events(t, stack, tok, fuel);
                        assert(all == seq![EventKind::Parse(tag, len)] + rest);
                        assert forall|i: int| 0 <= i < all.len() - 1 implies (#[trigger] all[i]) is Parse by {
                            if i > 0 {
                                assert(all[i] == rest[i - 1]);
                            }
                        }
                        if rest.len() > 0 {
                            assert(all.last() == rest.last());
                        }
                    },
                    None => {},
                }
            }
        },
        _ => {},
    }
}

/// How one step of the driver ends: when it accepts, every event is a
/// reduction (acceptance adds no event); otherwise its last event is a
/// read of the token, or the error for the token (an unexpected token, or
/// the unexpected end of the input when there is no token); the end of the
/// input is never read.
pub proof fn lemma_drive_ends(t: LRTable, stack: Seq<usize>, tok: Option<usize>, fuel: nat)
    requires
        drive(t, stack, tok, fuel) is Some,
    ensures
        ({
            let (evs, st2, acc) = drive(t, stack, tok, fuel)->0;
            &&& acc ==> forall|i: int| 0 <= i < evs.len() ==> (#[trigger] evs[i]) is Parse
            &&& !acc ==> evs.len() > 0 && (evs.last() is Read || evs.last() == error_kind(tok))
            &&& evs.len() > 0 && evs.last() is Read ==> tok is Some
        }),
    decreases fuel,
{
    let top = stack.last();
    match t.action(top as int, tok) {
        LRAction::Reduce(r) => {
            let (lhs, len, tag) = t.rules@[r as int];
            if len < stack.len() {
                let st1 = stack.subrange(0, stack.len() - len);
                match t.goto_table@[st1.last() as int]@[lhs as int] {
                    Some(j) => {
                        lemma_drive_ends(t, st1.push(j), tok, (fuel - 1) as nat);
                        let (rest, st2, acc) = drive(t, st1.push(j), tok, (fuel - 1) as nat)->0;
                        let all = seq![EventKind::Parse(tag, len)] + rest;
                        let whole = drive(t, stack, tok, fuel)->0;
                        assert(whole.0 == all);
                        if acc {
                            assert forall|i: int| 0 <= i < all.len() implies (#[trigger] all[i]) is Parse by {
                                if i > 0 {
                                    assert(all[i] == rest[i - 1]);
                                }
                            }
                        }
                        if rest.len() > 0 {
                            assert(all.last() == rest.last());
                        }
                    },
                    None => {},
                }
            }
        },
        _ => {},
    }
}

/// A reduction: where the action of the top state for the token is a
/// reduction by a rule with left side `lhs`, right side of length `len`
/// and tag `tag`, and the stack holds more than `len` states, the step
/// reports `Parse(tag, len)`, pops `len` states, pushes the goto entry of
/// the state below for `lhs`, and goes on with the same token.
pub proof fn lemma_drive_reduce(t: LRTable, stack: Seq<usize>, tok: Option<usize>, fuel: nat, r: usize, j: usize)
    requires
        fuel > 0,
        t.action(stack.last() as int, tok) == LRAction::Reduce(r),
        t.rules@[r as int].1 < stack.len(),
        t.goto_table@[stack.subrange(0, stack.len() - t.rules@[r as int].1).last() as int]@[t.rules@[r as int].0 as int]
            == Some(j),
    ensures
        drive(t, stack, tok, fuel) == prepend(
            seq![EventKind::Parse(t.rules@[r as int].2, t.rules@[r as int].1)],
            drive(t, stack.subrange(0, stack.len() - t.rules@[r as int].1).push(j), tok, (fuel - 1) as nat),
        ),
{
}

/// A parse reads the tokens in order, each at most once: the positions of
/// the events never go back, lie within the input or at its end, and two
/// reads are never for the same token.
pub proof fn lemma_reads_in_order(t: LRTable, stack: Seq<usize>, toks: Seq<usize>, pos: nat, fuel: nat)
    requires
        run_from(t, stack, toks, pos, fuel) is Some,
        pos <= toks.len(),
    ensures
        forall|i: int| 0 <= i < run_from(t, stack, toks, pos, fuel)->0.len() ==> pos <= (#[trigger] run_from(t, stack, toks, pos, fuel)->0[i]).1 <= toks.len(),
        forall|i: int, j: int|
            0 <= i < j < run_from(t, stack, toks, pos, fuel)->0.len() ==> (#[trigger] run_from(t, stack, toks, pos, fuel)->0[i]).1 <= (#[trigger] run_from(t, stack, toks, pos, fuel)->0[j]).1,
        forall|i: int, j: int|
            0 <= i < j < run_from(t, stack, toks, pos, fuel)->0.len() && (#[trigger] run_from(t, stack, toks, pos, fuel)->0[i]).0 is Read
                && (#[trigger] run_from(t, stack, toks, pos, fuel)->0[j]).0 is Read ==> run_from(t, stack, toks, pos, fuel)->0[i].1 < run_from(t, stack, toks, pos, fuel)->0[j].1,
    decreases fuel,
{
    let tok = kind_at(toks, pos);
    let (kinds, st2, acc) = drive(t, stack, tok, fuel)->0;
    let evs = Seq::new(kinds.len(), |i: int| (kinds[i], pos));
    let all = run_from(t, stack, toks, pos, fuel)->0;
    lemma_drive_shape(t, stack, tok, fuel);
    if acc || tok is None {
        assert(all == evs);
    } else {
        let rest = run_from(t, st2, toks, pos + 1, (fuel - 1) as nat)->0;
        lemma_reads_in_order(t, st2, toks, pos + 1, (fuel - 1) as nat);
        assert(all == evs + rest);
        assert forall|i: int| 0 <= i < all.len() implies pos <= (#[trigger] all[i]).1 <= toks.len() by {
            if i >= evs.len() {
                assert(all[i] == rest[i - evs.len()]);
            }
        }
        assert forall|i: int, j: int| 0 <= i < j < all.len() implies (#[trigger] all[i]).1 <= (#[trigger] all[j]).1 by {
            if j >= evs.len() {
                assert(all[j] == rest[j - evs.len()]);
                if i >= evs.len() {
                    assert(all[i] == rest[i - evs.len()]);
                }
            }
        }
        assert forall|i: int, j: int|
            0 <= i < j < all.len() && (#[trigger] all[i]).0 is Read && (#[trigger] all[j]).0 is Read implies all[i].1 < all[j].1 by {
            if j < evs.len() {
                assert(kinds[i] is Parse);
            } else if i < evs.len() {
                assert(all[j] == rest[j - evs.len()]);
            } else {
                assert(all[i] == rest[i - evs.len()]);
                assert(all[j] == rest[j - evs.len()]);
            }
        }
    }
}

/// Runs the parser of `table` over `tokens`: feeds the tokens one by one to
/// a driver in the start state, then the end of the input, and collects the
/// events, until the input is accepted or the end of the input is rejected.
pub fn parse<'input>(table: &LRTable, tokens: &Vec<Token<'input>>) -> (events: Vec<ParseEvent<'input>>)
    requires
        table.wf(),
        forall|i: int| 0 <= i < tokens@.len() ==> (#[trigger] tokens@[i]).kind < table.num_terms,
    ensures
        exists|fuel: nat, evs: Seq<(EventKind, nat)>|
            parse_run(*table, tokens@, fuel) == Some(evs) && events_match(events@, evs, tokens@),
{
    let ghost t = *table;
    let ghost toks = kinds_of(tokens@);
    let mut driver = LRDriver::from(table);
    let mut events: Vec<ParseEvent<'input>> = Vec::new();
    let ghost mut collected: Seq<(EventKind, nat)> = seq![];
    let ghost mut need: nat = 0;
    let mut pos: usize = 0;
    proof {
        assert forall|f: nat| f >= need implies #[trigger] run_from(t, seq![0usize], toks, 0, f)
            == after(collected, run_from(t, driver.spec_stack(), toks, pos as nat, (f - pos) as nat)) by {
            match run_from(t, seq![0usize], toks, 0, f) {
                Some(r) => { assert(collected + r == r); },
                None => {},
            }
        }
    }
    loop
        invariant
            t == *table,
            table.wf(),
            toks == kinds_of(tokens@),
            forall|i: int| 0 <= i < tokens@.len() ==> (#[trigger] tokens@[i]).kind < table.num_terms,
            driver.wf(),
            driver.spec_table() == t,
            !driver.spec_accepted(),
            pos <= tokens@.len(),
            need >= pos,
            events_match(events@, collected, tokens@),
            forall|f: nat| f >= need ==> #[trigger] run_from(t, seq![0usize], toks, 0, f)
                == after(collected, run_from(t, driver.spec_stack(), toks, pos as nat, (f - pos) as nat)),
        decreases tokens@.len() - pos,
    {
        let token = if pos < tokens.len() {
            Some(tokens[pos])
        } else {
            None
        };
        let ghost stack = driver.spec_stack();
        let ghost tok = kind_at(toks, pos as nat);
        proof {
            assert(crate::driver::tok_kind(token) == tok);
            assert(token == token_at(tokens@, pos as int));
        }
        let mut new_events = driver.consume(token);
        let ghost ne = new_events@;
        let ghost (fuel_i, kinds, acc) = choose|fuel: nat, kinds: Seq<EventKind>, acc: bool|
            drive(t, stack, crate::driver::tok_kind(token), fuel) == Some((kinds, driver.spec_stack(), acc))
                && kinds.len() == ne.len()
                && (forall|i: int| 0 <= i < kinds.len() ==> event_matches(#[trigger] ne[i], kinds[i], token))
                && driver.spec_accepted() == (false || acc);
        let ghost evs = Seq::new(kinds.len(), |i: int| (kinds[i], pos as nat));
        let ghost old_events = events@;
        let ghost old_collected = collected;
        events.append(&mut new_events);
        proof {
            collected = old_collected + evs;
            assert forall|i: int| 0 <= i < collected.len() implies event_matches(
                #[trigger] events@[i],
                collected[i].0,
                token_at(tokens@, collected[i].1 as int),
            ) by {
                if i < old_collected.len() {
                    assert(events@[i] == old_events[i]);
                    assert(collected[i] == old_collected[i]);
                } else {
                    let j = i - old_collected.len();
                    assert(events@[i] == ne[j]);
                    assert(collected[i] == evs[j]);
                }
            }
            let need2: nat = if need > fuel_i + pos + 1 { need } else { (fuel_i + pos + 1) as nat };
            let st2 = driver.spec_stack();
            assert forall|f: nat| f >= need2 implies #[trigger] run_from(t, seq![0usize], toks, 0, f)
                == after(collected, if acc || tok is None {
                    Some(Seq::<(EventKind, nat)>::empty())
                } else {
                    run_from(t, st2, toks, (pos + 1) as nat, (f - (pos + 1)) as nat)
                }) by {
                let g = (f - pos) as nat;
                assert(run_from(t, seq![0usize], toks, 0, f) == after(old_collected, run_from(t, stack, toks, pos as nat, g)));
                lemma_drive_mono(t, stack, tok, fuel_i, g);
                assert(drive(t, stack, tok, g) == Some((kinds, st2, acc)));
                if acc || tok is None {
                    assert(run_from(t, stack, toks, pos as nat, g) == Some(evs));
                    assert(collected + Seq::<(EventKind, nat)>::empty() == collected);
                } else {
                    assert((g - 1) as nat == (f - (pos + 1)) as nat);
                    match run_from(t, st2, toks, (pos + 1) as nat, (g - 1) as nat) {
                        Some(rest) => {
                            assert(run_from(t, stack, toks, pos as nat, g) == Some(evs + rest));
                            assert(old_collected + (evs + rest) == collected + rest);
                        },
                        None => {},
                    }
                }
            }
            need = need2;
        }
        if driver.accepted() || pos == tokens.len() {
            proof {
                assert(acc || tok is None);
                assert(collected + Seq::<(EventKind, nat)>::empty() == collected);
                assert(run_from(t, seq![0usize], toks, 0, need) == Some(collected));
                assert(parse_run(*table, tokens@, need) == Some(collected));
                assert(events_match(events@, collected, tokens@));
                assert(parse_run(*table, tokens@, need) == Some(collected) && events_match(events@, collected, tokens@));
            }
            return events;
        }
        pos = pos + 1;
    }
}

} // verus!
