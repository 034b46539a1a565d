//! The table-driven LR parse driver: a stack of states that consumes one
//! token (or the end of the input) at a time and reports what it did.
use vstd::prelude::*;
use crate::token::Token;
use crate::table::{LRTable, LRAction};
use crate::error::{DiagnosticError, LRError, ErrorBody};

verus! {

/// What the parser reports.
#[derive(Debug)]
pub enum ParseEvent<'input> {
    /// A token was shifted.
    Read(Token<'input>),
    /// The last `len` symbols were reduced by a rule with tag `rule`.
    Parse { rule: Option<usize>, len: usize },
    /// Parsing failed.
    Error(DiagnosticError),
}

/// The shape of a parse event, as the specification of the driver speaks
/// of it.
pub enum EventKind {
    Read,
    Parse(Option<usize>, usize),
    ErrToken,
    ErrEof,
}

/// The error that the driver reports for `tok` where it can go no further.
pub open spec fn error_kind(tok: Option<usize>) -> EventKind {
    match tok {
        Some(_) => EventKind::ErrToken,
        None => EventKind::ErrEof,
    }
}

pub open spec fn prepend(
    pre: Seq<EventKind>,
    r: Option<(Seq<EventKind>, Seq<usize>, bool)>,
) -> Option<(Seq<EventKind>, Seq<usize>, bool)> {
    match r {
        Some((evs, st, acc)) => Some((pre + evs, st, acc)),
        None => None,
    }
}

/// What consuming `tok` does from `stack`, within `fuel` reductions: the
/// events, the final stack, and whether the input was accepted; `None` when
/// the fuel does not suffice.
pub open spec fn drive(t: LRTable, stack: Seq<usize>, tok: Option<usize>, fuel: nat) -> Option<(Seq<EventKind>, Seq<usize>, bool)>
    decreases fuel,
{
    if fuel == 0 {
        None
    } else {
        let top = stack.last();
        match t.action(top as int, tok) {
            LRAction::Shift(j) => match tok {
                Some(_) => Some((seq![EventKind::Read], stack.push(j), false)),
                None => Some((seq![error_kind(tok)], stack, false)),
            },
            LRAction::Reduce(r) => {
                let (lhs, len, tag) = t.rules@[r as int];
                if len < stack.len() {
                    let st1 = stack.subrange(0, stack.len() - len);
                    match t.goto_table@[st1.last() as int]@[lhs as int] {
                        Some(j) => prepend(seq![EventKind::Parse(tag, len)], drive(t, st1.push(j), tok, (fuel - 1) as nat)),
                        None => Some((seq![error_kind(tok)], stack, false)),
                    }
                } else {
                    Some((seq![error_kind(tok)], stack, false))
                }
            },
            LRAction::Accept => Some((seq![], stack, true)),
            LRAction::Empty => Some((seq![error_kind(tok)], stack, false)),
        }
    }
}

/// `d` reports an unexpected token at `t`.
pub open spec fn is_token_error(d: DiagnosticError, t: Token) -> bool {
    &&& d.err matches ErrorBody::LR(LRError::UnexpectedToken { actual })
    &&& actual@ == "\"TODO\""@
    &&& d.diagnostics matches Some(dg)
    &&& dg.src@ == t.src@
    &&& dg.range == t.body
}

/// `d` reports an unexpected end of input.
pub open spec fn is_eof_error(d: DiagnosticError) -> bool {
    &&& d.err matches ErrorBody::LR(LRError::UnexpectedEOF)
    &&& d.diagnostics is None
}

/// The event `e` has the shape `k`, for the token `tok` being consumed.
pub open spec fn event_matches(e: ParseEvent, k: EventKind, tok: Option<Token>) -> bool {
    match k {
        EventKind::Read => tok is Some && e == ParseEvent::Read(tok->0),
        EventKind::Parse(tag, len) => e == ParseEvent::Parse { rule: tag, len },
        EventKind::ErrToken => {
            &&& tok is Some
            &&& e matches ParseEvent::Error(d)
            &&& is_token_error(d, tok->0)
        },
        EventKind::ErrEof => {
            &&& e matches ParseEvent::Error(d)
            &&& is_eof_error(d)
        },
    }
}

pub open spec fn tok_kind(tok: Option<Token>) -> Option<usize> {
    match tok {
        Some(t) => Some(t.kind),
        None => None,
    }
}

/// The stack is a nonempty list of states of the table.
pub open spec fn stack_ok(t: LRTable, stack: Seq<usize>) -> bool {
    &&& stack.len() > 0
    &&& forall|i: int| 0 <= i < stack.len() ==> #[trigger] stack[i] < t.num_states()
}

/// The LR parse driver over a table.
pub struct LRDriver<'table> {
    table: &'table LRTable,
    stack: Vec<usize>,
    accepted: bool,
}

impl<'table> LRDriver<'table> {
    pub closed spec fn spec_table(&self) -> LRTable {
        *self.table
    }

    pub closed spec fn spec_stack(&self) -> Seq<usize> {
        self.stack@
    }

    pub closed spec fn spec_accepted(&self) -> bool {
        self.accepted
    }

    pub open spec fn wf(&self) -> bool {
        self.spec_table().wf() && stack_ok(self.spec_table(), self.spec_stack())
    }

    /// A driver in the start state.
    pub fn from(table: &'table LRTable) -> (res: LRDriver<'table>)
        requires
            table.wf(),
        ensures
            res.wf(),
            res.spec_table() == *table,
            res.spec_stack() == seq![0usize],
            !res.spec_accepted(),
    {
        let mut stack: Vec<usize> = Vec::new();
        stack.push(0);
        LRDriver { table, stack, accepted: false }
    }

    /// Back to the start state; whether the input was accepted stays.
    pub fn reset(&mut self)
        requires
            old(self).wf(),
        ensures
            final(self).wf(),
            final(self).spec_table() == old(self).spec_table(),
            final(self).spec_stack() == seq![0usize],
            final(self).spec_accepted() == old(self).spec_accepted(),
    {
        let mut stack: Vec<usize> = Vec::new();
        stack.push(0);
        self.stack = stack;
    }

    /// Whether the input was accepted.
    pub fn accepted(&self) -> (res: bool)
        ensures
            res == self.spec_accepted(),
    {
        self.accepted
    }

    /// Consumes one token, or the end of the input (`None`): reduces while
    /// the table says so, then shifts the token, accepts, or reports an
    /// error. A reduction that would empty the stack, or that finds no goto
    /// entry, is reported as the same error as a missing action.
    pub fn consume<'input>(&mut self, token: Option<Token<'input>>) -> (events: Vec<ParseEvent<'input>>)
        requires
            old(self).wf(),
            token matches Some(t) ==> t.kind < old(self).spec_table().num_terms,
        ensures
            final(self).wf(),
            final(self).spec_table() == old(self).spec_table(),
            exists|fuel: nat, kinds: Seq<EventKind>, acc: bool|
                drive(old(self).spec_table(), old(self).spec_stack(), tok_kind(token), fuel) == Some((kinds, final(self).spec_stack(), acc))
                    && kinds.len() == events@.len()
                    && (forall|i: int| 0 <= i < kinds.len() ==> event_matches(#[trigger] events@[i], kinds[i], token))
                    && final(self).spec_accepted() == (old(self).spec_accepted() || acc),
    {
        let t = self.table;
        let tok = match token {
            Some(tk) => Some(tk.kind),
            None => None,
        };
        let ghost stack0 = self.stack@;
        let mut events: Vec<ParseEvent<'input>> = Vec::new();
        let ghost mut kinds: Seq<EventKind> = seq![];
        let ghost mut steps: nat = 0;
        loop
            invariant
                t.wf(),
                self.table == t,
                t == old(self).table,
                stack0 == old(self).stack@,
                tok == tok_kind(token),
                token matches Some(tk) ==> tk.kind < t.num_terms,
                stack_ok(*t, self.stack@),
                self.accepted == old(self).accepted,
                kinds.len() == events@.len(),
                forall|i: int| 0 <= i < kinds.len() ==> event_matches(#[trigger] events@[i], kinds[i], token),
                forall|f: nat| #[trigger] drive(*t, stack0, tok, f + steps) == prepend(kinds, drive(*t, self.stack@, tok, f)),
            decreases usize::MAX - events@.len(),
        {
            let top = self.stack[self.stack.len() - 1];
            let action = match tok {
                Some(k) => t.get_action(top, k),
                None => t.get_eof_action(top),
            };
            let ghost st = self.stack@;
            match action {
                LRAction::Shift(j) => {
                    match token {
                        Some(tk) => {
                            self.stack.push(j);
                            events.push(ParseEvent::Read(tk));
                            proof {
                                self.lemma_finish(stack0, st, tok, steps, kinds, seq![EventKind::Read], self.stack@, false);
                                kinds = kinds + seq![EventKind::Read];
                                assert(drive(old(self).spec_table(), old(self).spec_stack(), tok_kind(token), 1 + steps) == Some((kinds, self.spec_stack(), false)));
                            }
                            return events;
                        },
                        None => {
                            events.push(ParseEvent::Error(LRError::new_unexpected_eof()));
                            proof {
                                self.lemma_finish(stack0, st, tok, steps, kinds, seq![error_kind(tok)], st, false);
                                kinds = kinds + seq![error_kind(tok)];
                                assert(drive(old(self).spec_table(), old(self).spec_stack(), tok_kind(token), 1 + steps) == Some((kinds, self.spec_stack(), false)));
                            }
                            return events;
                        },
                    }
                },
                LRAction::Reduce(r) => {
                    let (lhs, len, tag) = t.rules[r];
                    let n = self.stack.len();
                    if len < n {
                        let below = self.stack[n - len - 1];
                        match t.get_goto(below, lhs) {
                            Some(j) => {
                                self.stack.truncate(n - len);
                                self.stack.push(j);
                                events.push(ParseEvent::Parse { rule: tag, len });
                                proof {
                                    let st1 = st.subrange(0, st.len() - len);
                                    assert(st1.last() == below);
                                    assert(self.stack@ == st1.push(j));
                                    assert forall|f: nat| #[trigger] drive(*t, stack0, tok, f + (steps + 1)) == prepend(
                                        kinds + seq![EventKind::Parse(tag, len)],
                                        drive(*t, self.stack@, tok, f),
                                    ) by {
                                        assert(drive(*t, stack0, tok, (f + 1) + steps) == prepend(kinds, drive(*t, st, tok, f + 1)));
                                        assert((f + 1) + steps == f + (steps + 1));
                                        assert(drive(*t, st, tok, f + 1) == prepend(seq![EventKind::Parse(tag, len)], drive(*t, self.stack@, tok, f)));
                                        match drive(*t, self.stack@, tok, f) {
                                            Some((evs, s2, acc)) => {
                                                assert(kinds + (seq![EventKind::Parse(tag, len)] + evs) == (kinds + seq![EventKind::Parse(tag, len)]) + evs);
                                            },
                                            None => {},
                                        }
                                    }
                                    assert forall|i: int| 0 <= i < self.stack@.len() implies #[trigger] self.stack@[i] < t.num_states() by {
                                        if i < st1.len() {
                                            assert(self.stack@[i] == st[i]);
                                        }
                                    }
                                    kinds = kinds + seq![EventKind::Parse(tag, len)];
                                    steps = steps + 1;
                                }
                                let el = events.len();
                                assert(el == events@.len());
                            },
                            None => {
                                let e = match token {
                                    Some(tk) => LRError::new_unexpected_token(tk),
                                    None => LRError::new_unexpected_eof(),
                                };
                                events.push(ParseEvent::Error(e));
                                proof {
                                    self.lemma_finish(stack0, st, tok, steps, kinds, seq![error_kind(tok)], st, false);
                                    kinds = kinds + seq![error_kind(tok)];
                                    assert(drive(old(self).spec_table(), old(self).spec_stack(), tok_kind(token), 1 + steps) == Some((kinds, self.spec_stack(), false)));
                                }
                                return events;
                            },
                        }
                    } else {
                        let e = match token {
                            Some(tk) => LRError::new_unexpected_token(tk),
                            None => LRError::new_unexpected_eof(),
                        };
                        events.push(ParseEvent::Error(e));
                        proof {
                            self.lemma_finish(stack0, st, tok, steps, kinds, seq![error_kind(tok)], st, false);
                            kinds = kinds + seq![error_kind(tok)];
                            assert(drive(old(self).spec_table(), old(self).spec_stack(), tok_kind(token), 1 + steps) == Some((kinds, self.spec_stack(), false)));
                        }
                        return events;
                    }
                },
                LRAction::Accept => {
                    self.accepted = true;
                    proof {
                        self.lemma_finish(stack0, st, tok, steps, kinds, seq![], st, true);
                        assert(kinds + seq![] == kinds);
                        assert(drive(old(self).spec_table(), old(self).spec_stack(), tok_kind(token), 1 + steps) == Some((kinds, self.spec_stack(), true)));
                    }
                    return events;
                },
                LRAction::Empty => {
                    let e = match token {
                        Some(tk) => LRError::new_unexpected_token(tk),
                        None => LRError::new_unexpected_eof(),
                    };
                    events.push(ParseEvent::Error(e));
                    proof {
                        self.lemma_finish(stack0, st, tok, steps, kinds, seq![error_kind(tok)], st, false);
                        kinds = kinds + seq![error_kind(tok)];
                        assert(drive(old(self).spec_table(), old(self).spec_stack(), tok_kind(token), 1 + steps) == Some((kinds, self.spec_stack(), false)));
                    }
                    return events;
                },
            }
        }
    }

    /// When one more step from `st` ends with `last`, the run from `stack0`
    /// ends with the events so far and `last`.
    proof fn lemma_finish(
        &self,
        stack0: Seq<usize>,
        st: Seq<usize>,
        tok: Option<usize>,
        steps: nat,
        kinds: Seq<EventKind>,
        last: Seq<EventKind>,
        st2: Seq<usize>,
        acc: bool,
    )
        requires
            forall|f: nat| #[trigger] drive(*self.table, stack0, tok, f + steps) == prepend(kinds, drive(*self.table, st, tok, f)),
            drive(*self.table, st, tok, 1) == Some((last, st2, acc)),
        ensures
            drive(*self.table, stack0, tok, 1 + steps) == Some((kinds + last, st2, acc)),
    {
        assert(drive(*self.table, stack0, tok, 1 + steps) == prepend(kinds, drive(*self.table, st, tok, 1)));
    }
}

} // verus!
