//! The tokenizer: walks the argument vector, hands values to options and
//! runs their callbacks.
use vstd::prelude::*;
use vstd::string::StringExecFns;
use vstd::string::StrSliceExecFns;

use crate::checkarg::{Callback, CheckArg};
use crate::model::{
    call_record, calls_for, calls_of, fired, lemma_calls_for_one, lemma_calls_of_concat, lemma_fires_at,
    lemma_logged_none, lemma_logged_trans, logged, stopped_at, Call,
    cleared, cluster_step, done, failed, fires, has_option, lemma_cleared_eq,
    lemma_cleared_set_value, lemma_first_eq, lemma_lookup, lemma_lookup_none, lemma_perform_concat,
    lemma_perform_single, lemma_resume_concat, lemma_resume_prefix, lemma_resume_snoc,
    lemma_resume_stuck, lemma_set_value_at, long_step, parse_outcome, perform, perform_one, resume,
    scan, short_target, token_step, Action, Mode, OptSpec, Snapshot, Step,
};
use crate::rc::RC;
use crate::text::chars_of;
use crate::value_type::ValueType;

verus! {

/// Where the tokenizer stands between two tokens.
#[derive(Clone, Copy)]
pub(crate) enum Pending {
    Normal,
    /// The next token is the value of the option at this index.
    Value(usize),
    /// A `--` was seen: the rest is positional.
    Positional,
}

pub(crate) open spec fn mode_of(opts: Seq<OptSpec>, p: Pending) -> Mode {
    match p {
        Pending::Normal => Mode::Normal,
        Pending::Value(i) => Mode::Awaiting(opts[i as int].long),
        Pending::Positional => Mode::PastSeparator,
    }
}

pub(crate) open spec fn pending_ok(len: int, p: Pending) -> bool {
    p matches Pending::Value(i) ==> i < len
}

/// What one step of the tokenizer may end in, with `calls` the callbacks'
/// calls in order: either every callback returned `Ok`, the step took its full
/// effect (stopping at its error, if any) and `r` is that error or `Okay`; or
/// a callback returned `Err`, the step stopped right after it and `r` is
/// `RC::Callback`.
pub open spec fn step_outcome(
    reg: Seq<OptSpec>,
    flags: Seq<bool>,
    before: Snapshot,
    st: Step,
    r: RC,
    after: Snapshot,
    calls: Seq<Call>,
) -> bool {
    ||| r != RC::Callback && r == (match st.err {
        Some(e) => e,
        None => RC::Okay,
    }) && after == perform(before, st.acts) && calls == calls_of(reg, flags, st.acts)
    ||| r == RC::Callback && exists|k: int| stopped_at(reg, flags, before, st.acts, k, after, calls)
}

/// A step whose one action is `a`: all of it took effect and its calls are
/// the ones that `a` makes, or `a`'s callback returned `Err`.
proof fn lemma_one_action(
    reg: Seq<OptSpec>,
    flags: Seq<bool>,
    before: Snapshot,
    a: Action,
    ok: bool,
    after: Snapshot,
)
    requires
        after == perform_one(before, a),
        !ok ==> fires(reg, flags, a),
    ensures
        ok ==> after == perform(before, seq![a]) && fired(reg, flags, a, ok) == calls_of(
            reg,
            flags,
            seq![a],
        ),
        !ok ==> stopped_at(reg, flags, before, seq![a], 0, after, fired(reg, flags, a, ok)),
{
    lemma_perform_single(before, a);
    assert(seq![a].drop_last() =~= Seq::<Action>::empty());
    assert(seq![a].last() == a);
    assert(calls_of(reg, flags, Seq::<Action>::empty()) == Seq::<Call>::empty());
    assert(seq![a].take(0) =~= Seq::<Action>::empty());
    assert(seq![a].take(1) =~= seq![a]);
    assert(Seq::<Call>::empty() + fired(reg, flags, a, true) =~= fired(reg, flags, a, true));
    assert(Seq::<Call>::empty() + fired(reg, flags, a, false) =~= fired(reg, flags, a, false));
}

impl<'a> CheckArg<'a> {
    /// The registry as a parse sees it: everything but the values, the
    /// positional arguments and the program name stays.
    pub open(crate) spec fn same_registry(&self, other: &CheckArg) -> bool {
        &&& cleared(self.parser().options()) == cleared(other.parser().options())
        &&& self.parser().shorts() == other.parser().shorts()
        &&& self.flags() == other.flags()
        &&& self.parser().same_texts(&other.parser())
    }

    /// Gives option `i` the value `value` and runs its callback, if it has
    /// one, with the option's long name and the value: the callback's record
    /// gains that one call. The result is what the callback returned, `true`
    /// where there is none.
    fn call_cb(&mut self, i: usize, value: String) -> (ok: bool)
        requires
            old(self).wf(),
            i < old(self).parser().options().len(),
        ensures
            final(self).wf(),
            final(self).same_registry(&old(self)),
            final(self).parser().call_name() == old(self).parser().call_name(),
            final(self).parser().snapshot() == perform_one(
                old(self).parser().snapshot(),
                Action::Assign(old(self).parser().options()[i as int].long, value@),
            ),
            logged(
                old(self).runs(),
                final(self).runs(),
                cleared(old(self).parser().options()),
                fired(
                    cleared(old(self).parser().options()),
                    old(self).flags(),
                    Action::Assign(old(self).parser().options()[i as int].long, value@),
                    ok,
                ),
            ),
            !old(self).flags()[i as int] ==> ok,
            !ok ==> fires(
                cleared(old(self).parser().options()),
                old(self).flags(),
                Action::Assign(old(self).parser().options()[i as int].long, value@),
            ),
    {
        let ghost opts = self.state.options();
        let ghost flags = self.flags();
        let ghost runs = self.runs();
        let ghost reg = cleared(opts);
        let ghost name = opts[i as int].long;
        let shown = value.clone();
        self.state.options[i].value = Some(value);
        proof {
            lemma_set_value_at(opts, i as int, value@);
            assert(self.state.options() =~= opts.update(i as int, crate::model::with_value(opts[i as int], Some(value@))));
            lemma_cleared_set_value(opts, opts[i as int].long, value@);
            lemma_cleared_eq(opts, self.state.options());
        }
        let mut slot: Option<Box<dyn Callback + 'a>> = None;
        std::mem::swap(&mut slot, &mut self.callbacks[i]);
        let ok = match &mut slot {
            Some(cb) => {
                let r = cb.call(&self.state, self.state.options[i].lopt.as_str(), shown.as_str());
                r.is_ok()
            },
            None => true,
        };
        std::mem::swap(&mut slot, &mut self.callbacks[i]);
        assert(self.flags() =~= flags);
        proof {
            crate::model::lemma_cleared_sorted(opts);
            lemma_lookup(opts, i as int);
            lemma_fires_at(reg, flags, i as int, value@);
            let f = fired(reg, flags, Action::Assign(name, value@), ok);
            if flags[i as int] {
                assert(self.runs()[i as int] == runs[i as int].push(call_record(name, value@, ok)));
                assert forall|j: int| 0 <= j < runs.len() implies #[trigger] self.runs()[j] == runs[j] + calls_for(f, reg[j].long) by {
                    lemma_calls_for_one(reg, i as int, call_record(name, value@, ok), j);
                    if j != i {
                        assert(runs[j] + Seq::<Call>::empty() =~= runs[j]);
                    }
                }
            } else {
                assert(self.runs() =~= runs);
                lemma_logged_none(runs, reg);
            }
        }
        ok
    }

    /// Index of the option that short alias `c` stands for.
    fn lookup_short(&self, c: char) -> (r: Option<usize>)
        requires
            self.wf(),
        ensures
            match r {
                Some(i) => i < self.parser().options().len() && short_target(self.parser().shorts(), c)
                    == Some(self.parser().options()[i as int].long),
                None => short_target(self.parser().shorts(), c) is None,
            },
    {
        let ghost shorts = self.state.shorts();
        let mut j: usize = self.state.short2long.len();
        assert(shorts.take(j as int) =~= shorts);
        while j > 0
            invariant
                self.wf(),
                j <= shorts.len(),
                shorts == self.state.shorts(),
                short_target(shorts, c) == short_target(shorts.take(j as int), c),
            decreases j,
        {
            let entry = &self.state.short2long[j - 1];
            let ghost pre = shorts.take(j as int);
            assert(pre.drop_last() =~= shorts.take(j - 1));
            assert(shorts[j - 1] == (entry.0, entry.1@));
            assert(pre.last() == shorts[j - 1]);
            if entry.0 == c {
                assert(short_target(pre, c) == Some(entry.1@));
                assert(short_target(self.state.shorts(), c) is Some);
                assert(self.state.wf());
                assert(short_target(self.state.shorts(), c)->0 == entry.1@);
                assert(has_option(self.state.options(), entry.1@));
                return self.state.find(entry.1.as_str());
            }
            j = j - 1;
        }
        None
    }

    /// A token that starts with `--`: the separator, or a long option.
    fn arg_long(&mut self, pending: &mut Pending, tok: &str, cs: &Vec<char>) -> (r: (RC, Ghost<Seq<Call>>))
        requires
            old(self).wf(),
            *old(pending) matches Pending::Normal,
            cs@ == tok@,
            cs@.len() >= 2,
        ensures
            final(self).wf(),
            final(self).same_registry(&old(self)),
            final(self).parser().call_name() == old(self).parser().call_name(),
            pending_ok(final(self).parser().options().len() as int, *final(pending)),
            r.0 != RC::Okay ==> *final(pending) matches Pending::Normal,
            ({
                let st = long_step(cleared(old(self).parser().options()), tok@.skip(2));
                &&& step_outcome(
                    cleared(old(self).parser().options()),
                    old(self).flags(),
                    old(self).parser().snapshot(),
                    st,
                    r.0,
                    final(self).parser().snapshot(),
                    r.1@,
                )
                &&& logged(old(self).runs(), final(self).runs(), cleared(old(self).parser().options()), r.1@)
                &&& (r.0 == RC::Okay ==> mode_of(final(self).parser().options(), *final(pending)) == st.mode)
            }),
    {
        let ghost opts = self.state.options();
        let ghost reg = cleared(opts);
        let ghost before = self.state.snapshot();
        let ghost body = tok@.skip(2);
        let ghost flags = self.flags();
        proof {
            lemma_logged_none(self.runs(), reg);
        }
        let n = cs.len();
        if n == 2 {
            *pending = Pending::Positional;
            proof {
                assert(body.len() == 0);
                assert(perform(before, Seq::<Action>::empty()) == before);
            }
            return (RC::Okay, Ghost(Seq::empty()));
        }
        let mut k: usize = 2;
        while k < n && cs[k] != '='
            invariant
                2 <= k <= n,
                n == cs@.len(),
                forall|j: int| 2 <= j < k ==> #[trigger] cs@[j] != '=',
            decreases n - k,
        {
            k = k + 1;
        }
        proof {
            assert forall|j: int| 0 <= j < k - 2 implies #[trigger] body[j] != '=' by {
                assert(body[j] == cs@[j + 2]);
            }
            lemma_first_eq(body, k - 2);
            assert(body.take(k - 2) =~= tok@.subrange(2, k as int));
            assert(k < n ==> body.skip(k - 2 + 1) =~= tok@.subrange(k + 1, n as int));
        }
        let name = tok.substring_char(2, k);
        match self.state.find(name) {
            None => {
                proof {
                    lemma_lookup_none(opts, name@);
                    assert(long_step(reg, body) == failed(seq![], RC::InvOpt));
                    assert(perform(before, Seq::<Action>::empty()) == before);
                }
                (RC::InvOpt, Ghost(Seq::empty()))
            },
            Some(i) => {
                proof {
                    lemma_lookup(opts, i as int);
                }
                match self.state.options[i].value_type {
                    ValueType::NoValue => {
                        if k < n {
                            proof {
                                assert(long_step(reg, body) == failed(seq![], RC::InvVal));
                                assert(perform(before, Seq::<Action>::empty()) == before);
                            }
                            return (RC::InvVal, Ghost(Seq::empty()));
                        }
                        let ok = self.call_cb(i, String::new());
                        let ghost a = Action::Assign(name@, seq![]);
                        let ghost f = fired(reg, flags, a, ok);
                        proof {
                            assert(long_step(reg, body).acts =~= seq![a]);
                            lemma_one_action(reg, flags, before, a, ok, self.state.snapshot());
                        }
                        if ok {
                            (RC::Okay, Ghost(f))
                        } else {
                            (RC::Callback, Ghost(f))
                        }
                    },
                    ValueType::Required => {
                        if k < n {
                            let v = String::from_str(tok.substring_char(k + 1, n));
                            let ghost a = Action::Assign(name@, v@);
                            let ok = self.call_cb(i, v);
                            let ghost f = fired(reg, flags, a, ok);
                            proof {
                                assert(long_step(reg, body).acts =~= seq![a]);
                                lemma_one_action(reg, flags, before, a, ok, self.state.snapshot());
                            }
                            if ok {
                                (RC::Okay, Ghost(f))
                            } else {
                                (RC::Callback, Ghost(f))
                            }
                        } else {
                            *pending = Pending::Value(i);
                            proof {
                                assert(long_step(reg, body) == done(seq![], Mode::Awaiting(name@)));
                                assert(perform(before, Seq::<Action>::empty()) == before);
                            }
                            (RC::Okay, Ghost(Seq::empty()))
                        }
                    },
                }
            },
        }
    }

    /// A token that starts with a single `-`: a cluster of short options.
    fn arg_short(&mut self, pending: &mut Pending, tok: &str, cs: &Vec<char>) -> (r: (RC, Ghost<Seq<Call>>))
        requires
            old(self).wf(),
            *old(pending) matches Pending::Normal,
            cs@ == tok@,
            cs@.len() >= 1,
        ensures
            final(self).wf(),
            final(self).same_registry(&old(self)),
            final(self).parser().call_name() == old(self).parser().call_name(),
            pending_ok(final(self).parser().options().len() as int, *final(pending)),
            r.0 != RC::Okay ==> *final(pending) matches Pending::Normal,
            ({
                let st = cluster_step(
                    cleared(old(self).parser().options()),
                    old(self).parser().shorts(),
                    tok@.skip(1),
                );
                &&& step_outcome(
                    cleared(old(self).parser().options()),
                    old(self).flags(),
                    old(self).parser().snapshot(),
                    st,
                    r.0,
                    final(self).parser().snapshot(),
                    r.1@,
                )
                &&& logged(old(self).runs(), final(self).runs(), cleared(old(self).parser().options()), r.1@)
                &&& (r.0 == RC::Okay ==> mode_of(final(self).parser().options(), *final(pending)) == st.mode)
            }),
    {
        let ghost reg = cleared(self.state.options());
        let ghost shorts = self.state.shorts();
        let ghost flags = self.flags();
        let ghost before = self.state.snapshot();
        let ghost whole = cluster_step(reg, shorts, tok@.skip(1));
        let ghost mut acts: Seq<Action> = seq![];
        let ghost mut calls: Seq<Call> = seq![];
        let ghost runs0 = self.runs();
        proof {
            lemma_logged_none(runs0, reg);
        }
        let n = cs.len();
        let mut j: usize = 1;
        assert(acts + whole.acts =~= whole.acts);
        while j < n
            invariant
                old(self).wf(),
                self.wf(),
                self.same_registry(&old(self)),
                self.parser().call_name() == old(self).parser().call_name(),
                *pending matches Pending::Normal,
                1 <= j <= n,
                n == cs@.len(),
                cs@ == tok@,
                reg == cleared(old(self).parser().options()),
                shorts == old(self).parser().shorts(),
                flags == old(self).flags(),
                before == old(self).parser().snapshot(),
                whole == cluster_step(reg, shorts, tok@.skip(1)),
                whole == (Step {
                    acts: acts + cluster_step(reg, shorts, tok@.skip(j as int)).acts,
                    ..cluster_step(reg, shorts, tok@.skip(j as int))
                }),
                self.state.snapshot() == perform(before, acts),
                runs0 == old(self).runs(),
                calls == calls_of(reg, flags, acts),
                logged(runs0, self.runs(), reg, calls),
            decreases n - j,
        {
            let c = cs[j];
            let ghost rest = tok@.skip(j as int);
            assert(rest[0] == c);
            assert(rest.drop_first() =~= tok@.skip(j + 1));
            match self.lookup_short(c) {
                None => {
                    proof {
                        assert(cluster_step(reg, shorts, rest) == failed(seq![], RC::InvOpt));
                        assert(whole.acts =~= acts);
                    }
                    return (RC::InvOpt, Ghost(calls));
                },
                Some(i) => {
                    let ghost cur = self.state.options();
                    let ghost name = cur[i as int].long;
                    proof {
                        lemma_lookup(cur, i as int);
                        crate::model::lemma_cleared_sorted(old(self).parser().options());
                    }
                    match self.state.options[i].value_type {
                        ValueType::NoValue => {
                            let ghost a = Action::Assign(name, seq![]);
                            let ghost runs1 = self.runs();
                            let ok = self.call_cb(i, String::new());
                            let ghost f = fired(reg, flags, a, ok);
                            proof {
                                lemma_logged_trans(runs0, runs1, self.runs(), reg, calls, f);
                                assert(acts.push(a).drop_last() =~= acts);
                                assert(acts.push(a).last() == a);
                                let next = cluster_step(reg, shorts, tok@.skip(j + 1));
                                assert(cluster_step(reg, shorts, rest).acts == seq![a] + next.acts);
                                assert(acts + (seq![a] + next.acts) =~= acts.push(a) + next.acts);
                                assert(acts.push(a).drop_last() =~= acts);
                                assert(reg[i as int].long == name);
                                if !ok {
                                    let k = acts.len() as int;
                                    assert(whole.acts[k] == a);
                                    assert(whole.acts.take(k + 1) =~= acts.push(a));
                                    assert(whole.acts.take(k) =~= acts);
                                    assert(stopped_at(reg, flags, before, whole.acts, k, self.state.snapshot(), calls + f));
                                }
                                acts = acts.push(a);
                                calls = calls + f;
                            }
                            if !ok {
                                return (RC::Callback, Ghost(calls));
                            }
                        },
                        ValueType::Required => {
                            if j + 1 < n {
                                let v = String::from_str(tok.substring_char(j + 1, n));
                                let ghost a = Action::Assign(name, v@);
                                let ghost runs1 = self.runs();
                                let ok = self.call_cb(i, v);
                                let ghost f = fired(reg, flags, a, ok);
                                proof {
                                    lemma_logged_trans(runs0, runs1, self.runs(), reg, calls, f);
                                    assert(acts.push(a).last() == a);
                                    assert(acts.push(a).drop_last() =~= acts);
                                    assert(rest.drop_first() =~= tok@.subrange(j + 1, n as int));
                                    assert(cluster_step(reg, shorts, rest).acts == seq![a]);
                                    assert(whole.acts =~= acts.push(a));
                                    assert(acts.push(a).drop_last() =~= acts);
                                    assert(reg[i as int].long == name);
                                    let k = acts.len() as int;
                                    assert(whole.acts[k] == a);
                                    assert(whole.acts.take(k + 1) =~= whole.acts);
                                    assert(whole.acts.take(k) =~= acts);
                                    assert(ok ==> calls_of(reg, flags, whole.acts) == calls + f);
                                    assert(!ok ==> stopped_at(reg, flags, before, whole.acts, k, self.state.snapshot(), calls + f));
                                }
                                if ok {
                                    return (RC::Okay, Ghost(calls + f));
                                } else {
                                    return (RC::Callback, Ghost(calls + f));
                                }
                            } else {
                                *pending = Pending::Value(i);
                                proof {
                                    assert(cluster_step(reg, shorts, rest) == done(seq![], Mode::Awaiting(name)));
                                    assert(whole.acts =~= acts);
                                }
                                return (RC::Okay, Ghost(calls));
                            }
                        },
                    }
                },
            }
            j = j + 1;
        }
        proof {
            assert(tok@.skip(n as int).len() == 0);
            assert(whole.acts =~= acts);
        }
        (RC::Okay, Ghost(calls))
    }

    /// One token of the argument vector.
    fn arg(&mut self, pending: &mut Pending, tok: &str) -> (r: (RC, Ghost<Seq<Call>>))
        requires
            old(self).wf(),
            pending_ok(old(self).parser().options().len() as int, *old(pending)),
        ensures
            final(self).wf(),
            final(self).same_registry(&old(self)),
            final(self).parser().call_name() == old(self).parser().call_name(),
            pending_ok(final(self).parser().options().len() as int, *final(pending)),
            r.0 != RC::Okay ==> *final(pending) matches Pending::Normal,
            ({
                let st = token_step(
                    cleared(old(self).parser().options()),
                    old(self).parser().shorts(),
                    mode_of(old(self).parser().options(), *old(pending)),
                    tok@,
                );
                &&& step_outcome(
                    cleared(old(self).parser().options()),
                    old(self).flags(),
                    old(self).parser().snapshot(),
                    st,
                    r.0,
                    final(self).parser().snapshot(),
                    r.1@,
                )
                &&& logged(old(self).runs(), final(self).runs(), cleared(old(self).parser().options()), r.1@)
                &&& (r.0 == RC::Okay ==> mode_of(final(self).parser().options(), *final(pending)) == st.mode)
            }),
    {
        let ghost before = self.state.snapshot();
        let ghost reg = cleared(self.state.options());
        let ghost flags = self.flags();
        proof {
            lemma_logged_none(self.runs(), reg);
            assert(seq![Action::Positional(tok@)].drop_last() =~= Seq::<Action>::empty());
            assert(seq![Action::Positional(tok@)].last() == Action::Positional(tok@));
            assert(calls_of(reg, flags, Seq::<Action>::empty()) == Seq::<Call>::empty());
            assert(calls_of(reg, flags, seq![Action::Positional(tok@)]) =~= Seq::<Call>::empty());
        }
        match *pending {
            Pending::Value(i) => {
                *pending = Pending::Normal;
                let v = String::from_str(tok);
                let ghost a = Action::Assign(old(self).parser().options()[i as int].long, tok@);
                let ok = self.call_cb(i, v);
                let ghost f = fired(reg, flags, a, ok);
                proof {
                    let st = token_step(
                        cleared(old(self).parser().options()),
                        old(self).parser().shorts(),
                        mode_of(old(self).parser().options(), *old(pending)),
                        tok@,
                    );
                    assert(st.acts =~= seq![a]);
                    lemma_one_action(reg, flags, before, a, ok, self.state.snapshot());
                }
                if ok {
                    (RC::Okay, Ghost(f))
                } else {
                    (RC::Callback, Ghost(f))
                }
            },
            Pending::Positional => {
                let ghost pos = self.state.positional();
                self.state.posargs.push(String::from_str(tok));
                proof {
                    assert(self.state.positional() =~= pos.push(tok@));
                    lemma_perform_single(before, Action::Positional(tok@));
                }
                (RC::Okay, Ghost(Seq::empty()))
            },
            Pending::Normal => {
                let cs = chars_of(tok);
                if cs.len() >= 2 && cs[0] == '-' && cs[1] == '-' {
                    self.arg_long(pending, tok, &cs)
                } else if cs.len() >= 1 && cs[0] == '-' {
                    self.arg_short(pending, tok, &cs)
                } else {
                    let ghost pos = self.state.positional();
                    self.state.posargs.push(String::from_str(tok));
                    proof {
                        assert(self.state.positional() =~= pos.push(tok@));
                        lemma_perform_single(before, Action::Positional(tok@));
                    }
                    (RC::Okay, Ghost(Seq::empty()))
                }
            },
        }
    }

    /// Forgets the last parse: every value unset, no positional arguments.
    pub fn reset(&mut self)
        requires
            old(self).wf(),
        ensures
            final(self).wf(),
            final(self).same_registry(&old(self)),
            final(self).parser().call_name() == old(self).parser().call_name(),
            final(self).runs() == old(self).runs(),
            final(self).parser().options() == cleared(old(self).parser().options()),
            final(self).parser().positional().len() == 0,
    {
        self.state.reset();
        proof {
            crate::model::lemma_cleared_sorted(old(self).parser().options());
        }
    }

    /// Parses `argv`, whose first element is the program's name. Values and
    /// positional arguments of an earlier parse are forgotten first. Tokens
    /// are taken in order; each value handed to an option with a callback runs
    /// that callback once, with the option's long name and the value. The
    /// first error, or the first callback that returns `Err`, ends the parse.
    pub fn parse(&mut self, argv: &Vec<&str>) -> (r: RC)
        requires
            old(self).wf(),
            argv@.len() > 0,
        ensures
            final(self).wf(),
            final(self).same_registry(&old(self)),
            final(self).parser().call_name() == argv@[0]@,
            exists|calls: Seq<Call>|
                parse_outcome(
                    old(self).parser().options(),
                    old(self).parser().shorts(),
                    old(self).flags(),
                    arguments(argv@),
                    r,
                    final(self).parser().snapshot(),
                    calls,
                ) && logged(
                    old(self).runs(),
                    final(self).runs(),
                    cleared(old(self).parser().options()),
                    calls,
                ),
    {
        let ghost toks = arguments(argv@);
        let ghost reg = cleared(old(self).parser().options());
        let ghost shorts = old(self).parser().shorts();
        let ghost flags = old(self).flags();
        let ghost init = Snapshot { options: reg, positional: seq![] };
        let ghost start = done(seq![], Mode::Normal);
        let ghost runs0 = old(self).runs();
        let ghost mut calls: Seq<Call> = seq![];
        self.reset();
        self.state.callname = String::from_str(argv[0]);
        proof {
            crate::model::lemma_cleared_sorted(old(self).parser().options());
            assert(self.state.positional() =~= Seq::<Seq<char>>::empty());
            assert(self.state.snapshot() == init);
            assert(toks.take(0) =~= Seq::<Seq<char>>::empty());
            lemma_logged_none(runs0, reg);
        }
        let mut pending = Pending::Normal;
        let mut i: usize = 1;
        while i < argv.len()
            invariant
                old(self).wf(),
                self.wf(),
                self.same_registry(&old(self)),
                self.parser().call_name() == argv@[0]@,
                1 <= i <= argv@.len(),
                toks == arguments(argv@),
                reg == cleared(old(self).parser().options()),
                shorts == old(self).parser().shorts(),
                flags == old(self).flags(),
                init == (Snapshot { options: reg, positional: seq![] }),
                start == done(seq![], Mode::Normal),
                pending_ok(self.parser().options().len() as int, pending),
                resume(reg, shorts, start, toks.take(i - 1)).err is None,
                mode_of(self.parser().options(), pending) == resume(reg, shorts, start, toks.take(i - 1)).mode,
                self.parser().snapshot() == perform(init, resume(reg, shorts, start, toks.take(i - 1)).acts),
                runs0 == old(self).runs(),
                calls == calls_of(reg, flags, resume(reg, shorts, start, toks.take(i - 1)).acts),
                logged(runs0, self.runs(), reg, calls),
            decreases argv@.len() - i,
        {
            let ghost prev = resume(reg, shorts, start, toks.take(i - 1));
            let ghost before = self.state.snapshot();
            let ghost old_opts = self.state.options();
            let ghost mode = mode_of(old_opts, pending);
            let ghost runs1 = self.runs();
            let (r, got) = self.arg(&mut pending, argv[i]);
            let ghost st = token_step(reg, shorts, mode, toks[i - 1]);
            let ghost cur = resume(reg, shorts, start, toks.take(i as int));
            proof {
                assert(toks[i - 1] == argv@[i as int]@);
                assert(toks.take(i as int) =~= toks.take(i - 1).push(toks[i - 1]));
                lemma_resume_snoc(reg, shorts, start, toks.take(i - 1), toks[i - 1]);
                lemma_logged_trans(runs0, runs1, self.runs(), reg, calls, got@);
                crate::model::lemma_step_errors(reg, shorts, mode, toks[i - 1]);
                assert(cur == (Step { acts: prev.acts + st.acts, mode: st.mode, err: st.err }));
                crate::model::lemma_cleared_eq(old(self).parser().options(), old_opts);
                assert forall|j: int| 0 <= j < old_opts.len() implies #[trigger] old_opts[j].long == self.parser().options()[j].long by {
                    crate::model::lemma_cleared_eq(old_opts, self.parser().options());
                }
            }
            match r {
                RC::Okay => {
                    proof {
                        lemma_perform_concat(init, prev.acts, st.acts);
                        lemma_calls_of_concat(reg, flags, prev.acts, st.acts);
                        calls = calls + got@;
                    }
                },
                _ => {
                    proof {
                        assert(toks.take(i as int) + toks.skip(i as int) =~= toks);
                        lemma_resume_concat(reg, shorts, start, toks.take(i as int), toks.skip(i as int));
                        lemma_resume_prefix(reg, shorts, cur, toks.skip(i as int));
                        let all = scan(reg, shorts, toks);
                        assert(all == resume(reg, shorts, cur, toks.skip(i as int)));
                        if r == RC::Callback {
                            let k = choose|k: int|
                                stopped_at(reg, flags, before, st.acts, k, self.parser().snapshot(), got@);
                            let kk = prev.acts.len() + k;
                            assert(all.acts.take(kk) =~= prev.acts + st.acts.take(k));
                            lemma_calls_of_concat(reg, flags, prev.acts, st.acts.take(k));
                            let x = calls_of(reg, flags, prev.acts);
                            let y = calls_of(reg, flags, st.acts.take(k));
                            let z = fired(reg, flags, st.acts[k], false);
                            assert(x + (y + z) =~= x + y + z);
                            assert(all.acts.take(cur.acts.len() as int) == cur.acts);
                            assert(all.acts[kk] == cur.acts[kk]);
                            assert(cur.acts[kk] == st.acts[k]);
                            assert(all.acts.take(kk + 1) =~= prev.acts + st.acts.take(k + 1));
                            lemma_perform_concat(init, prev.acts, st.acts.take(k + 1));
                            assert(stopped_at(reg, flags, init, all.acts, kk, self.parser().snapshot(), calls + got@));
                        } else {
                            lemma_resume_stuck(reg, shorts, cur, toks.skip(i as int));
                            lemma_perform_concat(init, prev.acts, st.acts);
                            lemma_calls_of_concat(reg, flags, prev.acts, st.acts);
                        }
                        assert(parse_outcome(
                            old(self).parser().options(),
                            shorts,
                            flags,
                            toks,
                            r,
                            self.parser().snapshot(),
                            calls + got@,
                        ));
                    }
                    return r;
                },
            }
            i = i + 1;
        }
        proof {
            assert(toks.take(i - 1) =~= toks);
            assert(parse_outcome(
                old(self).parser().options(),
                shorts,
                flags,
                toks,
                if pending matches Pending::Value(_) { RC::MissVal } else { RC::Okay },
                self.parser().snapshot(),
                calls,
            ));
        }
        match pending {
            Pending::Value(_) => RC::MissVal,
            _ => RC::Okay,
        }
    }
}

/// The arguments after the program's name.
pub open spec fn arguments(argv: Seq<&str>) -> Seq<Seq<char>> {
    argv.skip(1).map_values(|s: &str| s@)
}

} // verus!
