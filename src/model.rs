//! The parser as mathematics: what a registry holds, what each token does to
//! the parse, and what a whole parse leaves behind.
use vstd::prelude::*;

use crate::rc::RC;
use crate::text::{lemma_name_lt_irreflexive, name_lt};
use crate::value_type::ValueType;

verus! {

/// One registered option as the contracts see it.
pub struct OptSpec {
    pub short: char,
    pub long: Seq<char>,
    pub help: Seq<char>,
    pub kind: ValueType,
    pub label: Seq<char>,
    pub value: Option<Seq<char>>,
}

/// Options are kept strictly ordered by long name, so each long name occurs once.
pub open spec fn sorted(opts: Seq<OptSpec>) -> bool {
    forall|i: int, j: int| 0 <= i < j < opts.len() ==> name_lt(#[trigger] opts[i].long, #[trigger] opts[j].long)
}

pub open spec fn has_option(opts: Seq<OptSpec>, name: Seq<char>) -> bool {
    exists|i: int| 0 <= i < opts.len() && #[trigger] opts[i].long == name
}

/// The option registered under `name` (meaningful where `has_option` holds).
pub open spec fn option_named(opts: Seq<OptSpec>, name: Seq<char>) -> OptSpec {
    opts[choose|i: int| 0 <= i < opts.len() && #[trigger] opts[i].long == name]
}

/// The value that the last parse gave option `name`, if any.
pub open spec fn value_of(opts: Seq<OptSpec>, name: Seq<char>) -> Option<Seq<char>> {
    if has_option(opts, name) {
        option_named(opts, name).value
    } else {
        None
    }
}

pub open spec fn with_value(o: OptSpec, v: Option<Seq<char>>) -> OptSpec {
    OptSpec { value: v, ..o }
}

/// Option `name` gets value `v`; the others stay as they are.
pub open spec fn set_value(opts: Seq<OptSpec>, name: Seq<char>, v: Seq<char>) -> Seq<OptSpec> {
    opts.map_values(|o: OptSpec| if o.long == name { with_value(o, Some(v)) } else { o })
}

/// The registry with every value unset.
pub open spec fn cleared(opts: Seq<OptSpec>) -> Seq<OptSpec> {
    opts.map_values(|o: OptSpec| with_value(o, None))
}

/// The long name that short alias `c` stands for: later registrations win.
pub open spec fn short_target(shorts: Seq<(char, Seq<char>)>, c: char) -> Option<Seq<char>>
    decreases shorts.len(),
{
    if shorts.len() == 0 {
        None
    } else if shorts.last().0 == c {
        Some(shorts.last().1)
    } else {
        short_target(shorts.drop_last(), c)
    }
}

/// One call of a callback: the option, the value, and whether it returned
/// `Ok`.
pub struct Call {
    pub option: Seq<char>,
    pub value: Seq<char>,
    pub ok: bool,
}

pub open spec fn call_record(option: Seq<char>, value: Seq<char>, ok: bool) -> Call {
    Call { option, value, ok }
}

/// What the parser does on the way: give an option a value, or keep a
/// positional argument.
pub enum Action {
    Assign(Seq<char>, Seq<char>),
    Positional(Seq<char>),
}

/// Where the parser stands between two tokens.
pub enum Mode {
    Normal,
    Awaiting(Seq<char>),
    PastSeparator,
}

/// The actions taken so far, the mode reached and the error met, if any.
pub struct Step {
    pub acts: Seq<Action>,
    pub mode: Mode,
    pub err: Option<RC>,
}

pub open spec fn done(acts: Seq<Action>, mode: Mode) -> Step {
    Step { acts, mode, err: None }
}

pub open spec fn failed(acts: Seq<Action>, err: RC) -> Step {
    Step { acts, mode: Mode::Normal, err: Some(err) }
}

/// The characters of a short-option cluster (`-abc` without the dash).
pub open spec fn cluster_step(
    opts: Seq<OptSpec>,
    shorts: Seq<(char, Seq<char>)>,
    cs: Seq<char>,
) -> Step
    decreases cs.len(),
{
    if cs.len() == 0 {
        done(seq![], Mode::Normal)
    } else {
        match short_target(shorts, cs[0]) {
            None => failed(seq![], RC::InvOpt),
            Some(name) => if option_named(opts, name).kind == ValueType::NoValue {
                let rest = cluster_step(opts, shorts, cs.drop_first());
                Step { acts: seq![Action::Assign(name, seq![])] + rest.acts, ..rest }
            } else if cs.len() > 1 {
                done(seq![Action::Assign(name, cs.drop_first())], Mode::Normal)
            } else {
                done(seq![], Mode::Awaiting(name))
            },
        }
    }
}

/// Index of the first `=` in `s`, or its length where there is none.
pub open spec fn first_eq(s: Seq<char>) -> int
    decreases s.len(),
{
    if s.len() == 0 || s[0] == '=' {
        0
    } else {
        1 + first_eq(s.drop_first())
    }
}

/// A long option (`--name` or `--name=value`, given without its dashes);
/// empty, it is the separator.
pub open spec fn long_step(opts: Seq<OptSpec>, body: Seq<char>) -> Step {
    if body.len() == 0 {
        done(seq![], Mode::PastSeparator)
    } else {
        let k = first_eq(body);
        let name = body.take(k);
        if !has_option(opts, name) {
            failed(seq![], RC::InvOpt)
        } else if option_named(opts, name).kind == ValueType::NoValue {
            if k < body.len() {
                failed(seq![], RC::InvVal)
            } else {
                done(seq![Action::Assign(name, seq![])], Mode::Normal)
            }
        } else if k < body.len() {
            done(seq![Action::Assign(name, body.skip(k + 1))], Mode::Normal)
        } else {
            done(seq![], Mode::Awaiting(name))
        }
    }
}

/// One token, in the mode that the tokens before it left.
pub open spec fn token_step(
    opts: Seq<OptSpec>,
    shorts: Seq<(char, Seq<char>)>,
    mode: Mode,
    t: Seq<char>,
) -> Step {
    match mode {
        Mode::Awaiting(name) => done(seq![Action::Assign(name, t)], Mode::Normal),
        Mode::PastSeparator => done(seq![Action::Positional(t)], Mode::PastSeparator),
        Mode::Normal => if t.len() >= 2 && t[0] == '-' && t[1] == '-' {
            long_step(opts, t.skip(2))
        } else if t.len() >= 1 && t[0] == '-' {
            cluster_step(opts, shorts, t.skip(1))
        } else {
            done(seq![Action::Positional(t)], Mode::Normal)
        },
    }
}

/// Takes one more token, unless an error has already stopped the parse.
pub open spec fn next(
    opts: Seq<OptSpec>,
    shorts: Seq<(char, Seq<char>)>,
    r: Step,
    t: Seq<char>,
) -> Step {
    if r.err is Some {
        r
    } else {
        let s = token_step(opts, shorts, r.mode, t);
        Step { acts: r.acts + s.acts, mode: s.mode, err: s.err }
    }
}

pub open spec fn resume(
    opts: Seq<OptSpec>,
    shorts: Seq<(char, Seq<char>)>,
    r: Step,
    toks: Seq<Seq<char>>,
) -> Step
    decreases toks.len(),
{
    if toks.len() == 0 {
        r
    } else {
        resume(opts, shorts, next(opts, shorts, r, toks[0]), toks.drop_first())
    }
}

/// All tokens, from the start.
pub open spec fn scan(
    opts: Seq<OptSpec>,
    shorts: Seq<(char, Seq<char>)>,
    toks: Seq<Seq<char>>,
) -> Step {
    resume(opts, shorts, done(seq![], Mode::Normal), toks)
}

/// The result code of a run whose callbacks all succeeded.
pub open spec fn status(r: Step) -> RC {
    match r.err {
        Some(e) => e,
        None => if r.mode is Awaiting {
            RC::MissVal
        } else {
            RC::Okay
        },
    }
}

/// What a parse leaves to be queried: the options' values and the positional
/// arguments.
pub struct Snapshot {
    pub options: Seq<OptSpec>,
    pub positional: Seq<Seq<char>>,
}

pub open spec fn perform_one(s: Snapshot, a: Action) -> Snapshot {
    match a {
        Action::Assign(name, v) => Snapshot { options: set_value(s.options, name, v), ..s },
        Action::Positional(t) => Snapshot { positional: s.positional.push(t), ..s },
    }
}

pub open spec fn perform(s: Snapshot, acts: Seq<Action>) -> Snapshot
    decreases acts.len(),
{
    if acts.len() == 0 {
        s
    } else {
        perform_one(perform(s, acts.drop_last()), acts.last())
    }
}

/// Whether the action hands a value to an option that has a callback.
pub open spec fn fires(opts: Seq<OptSpec>, flags: Seq<bool>, a: Action) -> bool {
    match a {
        Action::Assign(name, _) => exists|i: int|
            0 <= i < opts.len() && #[trigger] opts[i].long == name && flags[i],
        Action::Positional(_) => false,
    }
}

/// The call that action `a` makes, if it hands a value to an option with a
/// callback; `ok` is what the callback returned.
pub open spec fn fired(opts: Seq<OptSpec>, flags: Seq<bool>, a: Action, ok: bool) -> Seq<Call> {
    match a {
        Action::Assign(name, v) => if fires(opts, flags, a) {
            seq![call_record(name, v, ok)]
        } else {
            seq![]
        },
        Action::Positional(_) => seq![],
    }
}

/// The calls that `acts` make, every callback returning `Ok`.
pub open spec fn calls_of(opts: Seq<OptSpec>, flags: Seq<bool>, acts: Seq<Action>) -> Seq<Call>
    decreases acts.len(),
{
    if acts.len() == 0 {
        seq![]
    } else {
        calls_of(opts, flags, acts.drop_last()) + fired(opts, flags, acts.last(), true)
    }
}

/// The calls made for option `name`, in order.
pub open spec fn calls_for(calls: Seq<Call>, name: Seq<char>) -> Seq<Call>
    decreases calls.len(),
{
    if calls.len() == 0 {
        seq![]
    } else {
        calls_for(calls.drop_last(), name) + if calls.last().option == name {
            seq![calls.last()]
        } else {
            seq![]
        }
    }
}

/// The callbacks' records, `before` and `after` (one per option, in order),
/// differ by the `calls` made for each option's name.
pub open spec fn logged(
    before: Seq<Seq<Call>>,
    after: Seq<Seq<Call>>,
    opts: Seq<OptSpec>,
    calls: Seq<Call>,
) -> bool {
    &&& after.len() == before.len()
    &&& forall|j: int| 0 <= j < before.len() ==> #[trigger] after[j] == before[j] + calls_for(calls, opts[j].long)
}

/// What a run whose actions are `acts` leaves, callbacks included: either
/// every callback returned `Ok` and all of `acts` took effect, or the callback
/// of action `k` returned `Err` and the run stopped right after it.
pub open spec fn stopped_at(
    opts: Seq<OptSpec>,
    flags: Seq<bool>,
    before: Snapshot,
    acts: Seq<Action>,
    k: int,
    after: Snapshot,
    calls: Seq<Call>,
) -> bool {
    &&& 0 <= k < acts.len()
    &&& fires(opts, flags, acts[k])
    &&& after == perform(before, acts.take(k + 1))
    &&& calls == calls_of(opts, flags, acts.take(k)) + fired(opts, flags, acts[k], false)
}

/// The outcomes that parsing `toks` (the arguments after the program name) can
/// have on a registry with options `opts`, short aliases `shorts` and callback
/// flags `flags`: `r` is the result code, `after` what is left to query and
/// `calls` the callbacks' calls, in order. Either every callback returned `Ok`,
/// the whole run took effect and `r` is its status, or a callback returned
/// `Err`, the run stopped right after it and `r` is `RC::Callback`.
pub open spec fn parse_outcome(
    opts: Seq<OptSpec>,
    shorts: Seq<(char, Seq<char>)>,
    flags: Seq<bool>,
    toks: Seq<Seq<char>>,
    r: RC,
    after: Snapshot,
    calls: Seq<Call>,
) -> bool {
    let reg = cleared(opts);
    let run = scan(reg, shorts, toks);
    let init = Snapshot { options: reg, positional: seq![] };
    ||| r == status(run) && after == perform(init, run.acts) && calls == calls_of(reg, flags, run.acts)
    ||| r == RC::Callback && exists|k: int| stopped_at(reg, flags, init, run.acts, k, after, calls)
}

pub proof fn lemma_sorted_unique(opts: Seq<OptSpec>, i: int, j: int)
    requires
        sorted(opts),
        0 <= i < opts.len(),
        0 <= j < opts.len(),
        opts[i].long == opts[j].long,
    ensures
        i == j,
{
    if i < j || j < i {
        lemma_name_lt_irreflexive(opts[i].long);
    }
}

/// In a sorted registry, the option at index `i` is the one named by its name.
pub proof fn lemma_named(opts: Seq<OptSpec>, i: int)
    requires
        sorted(opts),
        0 <= i < opts.len(),
    ensures
        has_option(opts, opts[i].long),
        option_named(opts, opts[i].long) == opts[i],
{
    let name = opts[i].long;
    assert(opts[i].long == name);
    let j = choose|j: int| 0 <= j < opts.len() && #[trigger] opts[j].long == name;
    lemma_sorted_unique(opts, i, j);
}

pub proof fn lemma_cleared_sorted(opts: Seq<OptSpec>)
    requires
        sorted(opts),
    ensures
        sorted(cleared(opts)),
        cleared(cleared(opts)) == cleared(opts),
{
    let c = cleared(opts);
    assert forall|i: int, j: int| 0 <= i < j < c.len() implies name_lt(
        #[trigger] c[i].long,
        #[trigger] c[j].long,
    ) by {
        assert(opts[i].long == c[i].long);
        assert(opts[j].long == c[j].long);
    }
    assert(cleared(c) =~= c);
}

/// Setting a value by name, in a sorted registry, changes only that entry.
pub proof fn lemma_set_value_at(opts: Seq<OptSpec>, i: int, v: Seq<char>)
    requires
        sorted(opts),
        0 <= i < opts.len(),
    ensures
        set_value(opts, opts[i].long, v) == opts.update(i, with_value(opts[i], Some(v))),
{
    let name = opts[i].long;
    assert forall|j: int| 0 <= j < opts.len() && j != i implies opts[j].long != name by {
        if opts[j].long == name {
            lemma_sorted_unique(opts, i, j);
        }
    }
    assert(set_value(opts, name, v) =~= opts.update(i, with_value(opts[i], Some(v))));
}

pub proof fn lemma_resume_stuck(
    opts: Seq<OptSpec>,
    shorts: Seq<(char, Seq<char>)>,
    r: Step,
    toks: Seq<Seq<char>>,
)
    requires
        r.err is Some,
    ensures
        resume(opts, shorts, r, toks) == r,
    decreases toks.len(),
{
    if toks.len() > 0 {
        lemma_resume_stuck(opts, shorts, r, toks.drop_first());
    }
}

/// Tokens are taken one after the other: a run over `toks + [t]` is the run
/// over `toks` followed by one more step.
pub proof fn lemma_resume_snoc(
    opts: Seq<OptSpec>,
    shorts: Seq<(char, Seq<char>)>,
    r: Step,
    toks: Seq<Seq<char>>,
    t: Seq<char>,
)
    ensures
        resume(opts, shorts, r, toks.push(t)) == next(opts, shorts, resume(opts, shorts, r, toks), t),
    decreases toks.len(),
{
    if toks.len() == 0 {
        assert(toks.push(t)[0] == t);
        assert(toks.push(t).drop_first() =~= Seq::<Seq<char>>::empty());
        assert(resume(opts, shorts, next(opts, shorts, r, t), Seq::<Seq<char>>::empty()) == next(opts, shorts, r, t));
    } else {
        assert(toks.push(t)[0] == toks[0]);
        assert(toks.push(t).drop_first() =~= toks.drop_first().push(t));
        lemma_resume_snoc(opts, shorts, next(opts, shorts, r, toks[0]), toks.drop_first(), t);
    }
}

/// Actions once taken stay taken.
pub proof fn lemma_resume_prefix(
    opts: Seq<OptSpec>,
    shorts: Seq<(char, Seq<char>)>,
    r: Step,
    toks: Seq<Seq<char>>,
)
    ensures
        resume(opts, shorts, r, toks).acts.len() >= r.acts.len(),
        resume(opts, shorts, r, toks).acts.take(r.acts.len() as int) == r.acts,
    decreases toks.len(),
{
    if toks.len() > 0 {
        let n = next(opts, shorts, r, toks[0]);
        lemma_resume_prefix(opts, shorts, n, toks.drop_first());
        assert(n.acts.take(r.acts.len() as int) =~= r.acts);
        let all = resume(opts, shorts, r, toks).acts;
        assert(all.take(r.acts.len() as int) =~= all.take(n.acts.len() as int).take(
            r.acts.len() as int,
        ));
    }
}

pub proof fn lemma_perform_concat(s: Snapshot, a: Seq<Action>, b: Seq<Action>)
    ensures
        perform(s, a + b) == perform(perform(s, a), b),
    decreases b.len(),
{
    if b.len() == 0 {
        assert(a + b =~= a);
    } else {
        assert((a + b).drop_last() =~= a + b.drop_last());
        lemma_perform_concat(s, a, b.drop_last());
    }
}

/// A run over `a + b` is the run over `a`, continued over `b`.
pub proof fn lemma_resume_concat(
    opts: Seq<OptSpec>,
    shorts: Seq<(char, Seq<char>)>,
    r: Step,
    a: Seq<Seq<char>>,
    b: Seq<Seq<char>>,
)
    ensures
        resume(opts, shorts, r, a + b) == resume(opts, shorts, resume(opts, shorts, r, a), b),
    decreases a.len(),
{
    if a.len() == 0 {
        assert(a + b =~= b);
    } else {
        assert((a + b)[0] == a[0]);
        assert((a + b).drop_first() =~= a.drop_first() + b);
        lemma_resume_concat(opts, shorts, next(opts, shorts, r, a[0]), a.drop_first(), b);
    }
}

pub proof fn lemma_first_eq(s: Seq<char>, k: int)
    requires
        0 <= k <= s.len(),
        forall|j: int| 0 <= j < k ==> #[trigger] s[j] != '=',
        k == s.len() || s[k] == '=',
    ensures
        first_eq(s) == k,
    decreases k,
{
    if k > 0 {
        let t = s.drop_first();
        assert forall|j: int| 0 <= j < k - 1 implies #[trigger] t[j] != '=' by {
            assert(t[j] == s[j + 1]);
        }
        assert(s[0] != '=');
        lemma_first_eq(t, k - 1);
    }
}

/// Clearing values changes no name, kind or alias: lookups give the same.
pub proof fn lemma_lookup(opts: Seq<OptSpec>, i: int)
    requires
        sorted(opts),
        0 <= i < opts.len(),
    ensures
        has_option(cleared(opts), opts[i].long),
        option_named(cleared(opts), opts[i].long) == with_value(opts[i], None),
        cleared(opts)[i].long == opts[i].long,
{
    lemma_cleared_sorted(opts);
    lemma_named(cleared(opts), i);
}

pub proof fn lemma_lookup_none(opts: Seq<OptSpec>, name: Seq<char>)
    requires
        !has_option(opts, name),
    ensures
        !has_option(cleared(opts), name),
{
    if has_option(cleared(opts), name) {
        let j = choose|j: int| 0 <= j < cleared(opts).len() && #[trigger] cleared(opts)[j].long == name;
        assert(opts[j].long == name);
    }
}

pub proof fn lemma_cleared_set_value(opts: Seq<OptSpec>, name: Seq<char>, v: Seq<char>)
    ensures
        cleared(set_value(opts, name, v)) == cleared(opts),
{
    assert(cleared(set_value(opts, name, v)) =~= cleared(opts));
}

/// A step fails only on an unknown option or a value given to an option that
/// takes none.
pub proof fn lemma_step_errors(
    opts: Seq<OptSpec>,
    shorts: Seq<(char, Seq<char>)>,
    mode: Mode,
    t: Seq<char>,
)
    ensures
        token_step(opts, shorts, mode, t).err is Some ==> token_step(opts, shorts, mode, t).err
            == Some(RC::InvOpt) || token_step(opts, shorts, mode, t).err == Some(RC::InvVal),
{
    if mode is Normal && !(t.len() >= 2 && t[0] == '-' && t[1] == '-') && t.len() >= 1 && t[0] == '-' {
        lemma_cluster_errors(opts, shorts, t.skip(1));
    }
}

pub proof fn lemma_cluster_errors(opts: Seq<OptSpec>, shorts: Seq<(char, Seq<char>)>, cs: Seq<char>)
    ensures
        cluster_step(opts, shorts, cs).err is Some ==> cluster_step(opts, shorts, cs).err == Some(
            RC::InvOpt,
        ),
    decreases cs.len(),
{
    if cs.len() > 0 {
        lemma_cluster_errors(opts, shorts, cs.drop_first());
    }
}

pub proof fn lemma_perform_single(s: Snapshot, a: Action)
    ensures
        perform(s, seq![a]) == perform_one(s, a),
{
    assert(seq![a].drop_last() =~= Seq::<Action>::empty());
    assert(seq![a].last() == a);
    assert(perform(s, Seq::<Action>::empty()) == s);
}

/// Registries that differ only in values have the same names in the same order.
pub proof fn lemma_cleared_eq(a: Seq<OptSpec>, b: Seq<OptSpec>)
    requires
        cleared(a) == cleared(b),
        sorted(a),
    ensures
        sorted(b),
        a.len() == b.len(),
        forall|j: int| 0 <= j < a.len() ==> #[trigger] a[j].long == b[j].long,
        forall|n: Seq<char>| has_option(a, n) <==> has_option(b, n),
{
    assert(cleared(a).len() == a.len());
    assert(cleared(b).len() == b.len());
    assert forall|j: int| 0 <= j < a.len() implies #[trigger] a[j].long == b[j].long by {
        assert(cleared(a)[j] == with_value(a[j], None));
        assert(cleared(b)[j] == with_value(b[j], None));
    }
    assert forall|i: int, j: int| 0 <= i < j < b.len() implies name_lt(#[trigger] b[i].long, #[trigger] b[j].long) by {
        assert(a[i].long == b[i].long);
        assert(a[j].long == b[j].long);
    }
    assert forall|n: Seq<char>| has_option(a, n) <==> has_option(b, n) by {
        if has_option(a, n) {
            let j = choose|j: int| 0 <= j < a.len() && #[trigger] a[j].long == n;
            assert(b[j].long == n);
        }
        if has_option(b, n) {
            let j = choose|j: int| 0 <= j < b.len() && #[trigger] b[j].long == n;
            assert(a[j].long == n);
        }
    }
}

pub proof fn lemma_calls_of_concat(opts: Seq<OptSpec>, flags: Seq<bool>, a: Seq<Action>, b: Seq<Action>)
    ensures
        calls_of(opts, flags, a + b) == calls_of(opts, flags, a) + calls_of(opts, flags, b),
    decreases b.len(),
{
    if b.len() == 0 {
        assert(a + b =~= a);
        assert(calls_of(opts, flags, a) + Seq::<Call>::empty() =~= calls_of(opts, flags, a));
    } else {
        assert((a + b).drop_last() =~= a + b.drop_last());
        assert((a + b).last() == b.last());
        lemma_calls_of_concat(opts, flags, a, b.drop_last());
        let x = calls_of(opts, flags, a);
        let y = calls_of(opts, flags, b.drop_last());
        let z = fired(opts, flags, b.last(), true);
        assert(x + y + z =~= x + (y + z));
    }
}

pub proof fn lemma_calls_for_concat(a: Seq<Call>, b: Seq<Call>, name: Seq<char>)
    ensures
        calls_for(a + b, name) == calls_for(a, name) + calls_for(b, name),
    decreases b.len(),
{
    if b.len() == 0 {
        assert(a + b =~= a);
        assert(calls_for(a, name) + Seq::<Call>::empty() =~= calls_for(a, name));
    } else {
        assert((a + b).drop_last() =~= a + b.drop_last());
        assert((a + b).last() == b.last());
        lemma_calls_for_concat(a, b.drop_last(), name);
        let x = calls_for(a, name);
        let y = calls_for(b.drop_last(), name);
        let z = if b.last().option == name { seq![b.last()] } else { Seq::<Call>::empty() };
        assert(x + y + z =~= x + (y + z));
    }
}

pub proof fn lemma_logged_none(runs: Seq<Seq<Call>>, opts: Seq<OptSpec>)
    ensures
        logged(runs, runs, opts, seq![]),
{
    assert forall|j: int| 0 <= j < runs.len() implies #[trigger] runs[j] == runs[j] + calls_for(seq![], opts[j].long) by {
        assert(runs[j] + Seq::<Call>::empty() =~= runs[j]);
    }
}

pub proof fn lemma_logged_trans(
    a: Seq<Seq<Call>>,
    b: Seq<Seq<Call>>,
    c: Seq<Seq<Call>>,
    opts: Seq<OptSpec>,
    x: Seq<Call>,
    y: Seq<Call>,
)
    requires
        logged(a, b, opts, x),
        logged(b, c, opts, y),
    ensures
        logged(a, c, opts, x + y),
{
    assert forall|j: int| 0 <= j < a.len() implies #[trigger] c[j] == a[j] + calls_for(x + y, opts[j].long) by {
        lemma_calls_for_concat(x, y, opts[j].long);
        assert(b[j] == a[j] + calls_for(x, opts[j].long));
        assert(c[j] == b[j] + calls_for(y, opts[j].long));
        assert(a[j] + calls_for(x, opts[j].long) + calls_for(y, opts[j].long) =~= a[j] + (calls_for(x, opts[j].long) + calls_for(y, opts[j].long)));
    }
}

/// One call, made for the option at index `i` of a sorted registry, is that
/// option's only new call.
pub proof fn lemma_calls_for_one(opts: Seq<OptSpec>, i: int, c: Call, j: int)
    requires
        sorted(opts),
        0 <= i < opts.len(),
        0 <= j < opts.len(),
        c.option == opts[i].long,
    ensures
        calls_for(seq![c], opts[j].long) == if i == j { seq![c] } else { Seq::<Call>::empty() },
{
    assert(seq![c].drop_last() =~= Seq::<Call>::empty());
    assert(seq![c].last() == c);
    assert(calls_for(Seq::<Call>::empty(), opts[j].long) == Seq::<Call>::empty());
    if i != j && opts[j].long == opts[i].long {
        lemma_sorted_unique(opts, i, j);
    }
    assert(Seq::<Call>::empty() + seq![c] =~= seq![c]);
    assert(Seq::<Call>::empty() + Seq::<Call>::empty() =~= Seq::<Call>::empty());
}

/// In a sorted registry, a value handed to the option at index `i` calls its
/// callback exactly when it has one.
pub proof fn lemma_fires_at(opts: Seq<OptSpec>, flags: Seq<bool>, i: int, v: Seq<char>)
    requires
        sorted(opts),
        0 <= i < opts.len(),
        flags.len() == opts.len(),
    ensures
        fires(opts, flags, Action::Assign(opts[i].long, v)) == flags[i],
{
    if fires(opts, flags, Action::Assign(opts[i].long, v)) {
        let j = choose|j: int| 0 <= j < opts.len() && #[trigger] opts[j].long == opts[i].long && flags[j];
        lemma_sorted_unique(opts, i, j);
    }
    if flags[i] {
        assert(opts[i].long == opts[i].long);
    }
}

} // verus!
