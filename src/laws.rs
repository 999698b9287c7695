//! General properties of parsing, proved over the model that `parse`'s
//! contract states.
use vstd::prelude::*;

use crate::model::{
    call_record, calls_of, fired, stopped_at, Call,
    cleared, cluster_step, done, first_eq, has_option, lemma_first_eq,
    lemma_lookup, lemma_named, lemma_resume_concat, lemma_resume_snoc, next, option_named,
    parse_outcome, perform, resume, scan, set_value, short_target, sorted, status,
    token_step, value_of, with_value, Action, Mode, OptSpec, Snapshot, Step,
};
use crate::rc::RC;
use crate::value_type::ValueType;

verus! {

/// Whether `s` holds no `=`.
pub open spec fn no_eq(s: Seq<char>) -> bool {
    forall|j: int| 0 <= j < s.len() ==> #[trigger] s[j] != '='
}

/// Whether short alias `c` stands for a registered option of kind `kind`.
pub open spec fn alias_of_kind(
    opts: Seq<OptSpec>,
    shorts: Seq<(char, Seq<char>)>,
    c: char,
    kind: ValueType,
) -> bool {
    &&& short_target(shorts, c) is Some
    &&& has_option(opts, short_target(shorts, c)->0)
    &&& option_named(opts, short_target(shorts, c)->0).kind == kind
}

/// The tokens `-c`, `--name`, `--name=v`, as character sequences.
pub open spec fn short_token(cs: Seq<char>) -> Seq<char> {
    seq!['-'] + cs
}

pub open spec fn long_token(name: Seq<char>) -> Seq<char> {
    seq!['-', '-'] + name
}

pub open spec fn long_token_with(name: Seq<char>, v: Seq<char>) -> Seq<char> {
    seq!['-', '-'] + name + seq!['='] + v
}

proof fn lemma_scan_single(opts: Seq<OptSpec>, shorts: Seq<(char, Seq<char>)>, t: Seq<char>)
    ensures
        scan(opts, shorts, seq![t]) == token_step(opts, shorts, Mode::Normal, t),
{
    let s = token_step(opts, shorts, Mode::Normal, t);
    lemma_resume_snoc(opts, shorts, done(seq![], Mode::Normal), Seq::<Seq<char>>::empty(), t);
    assert(Seq::<Seq<char>>::empty().push(t) =~= seq![t]);
    assert(Seq::<Action>::empty() + s.acts =~= s.acts);
}

proof fn lemma_scan_pair(opts: Seq<OptSpec>, shorts: Seq<(char, Seq<char>)>, t: Seq<char>, u: Seq<char>)
    ensures
        scan(opts, shorts, seq![t, u]) == next(opts, shorts, token_step(opts, shorts, Mode::Normal, t), u),
{
    lemma_scan_single(opts, shorts, t);
    lemma_resume_snoc(opts, shorts, done(seq![], Mode::Normal), seq![t], u);
    assert(seq![t].push(u) =~= seq![t, u]);
}

/// Looking a name up in the cleared registry finds the option's kind.
proof fn lemma_kind(opts: Seq<OptSpec>, name: Seq<char>)
    requires
        sorted(opts),
        has_option(opts, name),
    ensures
        has_option(cleared(opts), name),
        option_named(cleared(opts), name).kind == option_named(opts, name).kind,
{
    let i = choose|i: int| 0 <= i < opts.len() && #[trigger] opts[i].long == name;
    lemma_lookup(opts, i);
    lemma_named(opts, i);
}

proof fn lemma_long_body(name: Seq<char>, v: Seq<char>)
    requires
        no_eq(name),
    ensures
        long_token_with(name, v).skip(2) =~= name + seq!['='] + v,
        first_eq(name + seq!['='] + v) == name.len(),
        (name + seq!['='] + v).take(name.len() as int) =~= name,
        (name + seq!['='] + v).skip(name.len() as int + 1) =~= v,
        long_token(name).skip(2) =~= name,
        first_eq(name) == name.len(),
        name.take(name.len() as int) =~= name,
{
    let b = name + seq!['='] + v;
    assert forall|j: int| 0 <= j < name.len() implies #[trigger] b[j] != '=' by {
        assert(b[j] == name[j]);
    }
    lemma_first_eq(b, name.len() as int);
    lemma_first_eq(name, name.len() as int);
}

/// A value, once set by name, is what the name's lookup gives.
proof fn lemma_value_set(opts: Seq<OptSpec>, name: Seq<char>, v: Seq<char>)
    requires
        has_option(opts, name),
    ensures
        value_of(set_value(opts, name, v), name) == Some(v),
{
    let s = set_value(opts, name, v);
    let i = choose|i: int| 0 <= i < opts.len() && #[trigger] opts[i].long == name;
    assert(s[i].long == name);
    let j = choose|j: int| 0 <= j < s.len() && #[trigger] s[j].long == name;
    assert(s[j] == with_value(opts[j], Some(v)));
}

/// With nothing after the program's name, a parse succeeds, keeps no
/// positional argument, leaves every option unset and runs no callback.
pub proof fn lemma_no_arguments(
    opts: Seq<OptSpec>,
    shorts: Seq<(char, Seq<char>)>,
    flags: Seq<bool>,
    r: RC,
    after: Snapshot,
    calls: Seq<Call>,
)
    requires
        parse_outcome(opts, shorts, flags, seq![], r, after, calls),
    ensures
        r == RC::Okay,
        calls.len() == 0,
        after.positional.len() == 0,
        forall|i: int| 0 <= i < after.options.len() ==> (#[trigger] after.options[i]).value is None,
{
    assert(scan(cleared(opts), shorts, seq![]) == done(seq![], Mode::Normal));
}

/// Perform changes values only.
proof fn lemma_perform_keeps_registry(s: Snapshot, acts: Seq<Action>)
    ensures
        cleared(perform(s, acts).options) == cleared(s.options),
    decreases acts.len(),
{
    if acts.len() > 0 {
        lemma_perform_keeps_registry(s, acts.drop_last());
        let p = perform(s, acts.drop_last());
        match acts.last() {
            Action::Assign(n, v) => {
                assert(cleared(set_value(p.options, n, v)) =~= cleared(p.options));
            },
            Action::Positional(_) => {},
        }
    }
}

/// A registry can be reused: whatever a first parse of `a` left behind, a
/// second parse of `b` has exactly the outcomes (result, values, positional
/// arguments and callback calls) that parsing `b` has on the freshly
/// registered options.
pub proof fn lemma_reuse(
    opts: Seq<OptSpec>,
    shorts: Seq<(char, Seq<char>)>,
    flags: Seq<bool>,
    a: Seq<Seq<char>>,
    r1: RC,
    mid: Snapshot,
    calls1: Seq<Call>,
    b: Seq<Seq<char>>,
    r2: RC,
    after: Snapshot,
    calls2: Seq<Call>,
)
    requires
        parse_outcome(opts, shorts, flags, a, r1, mid, calls1),
    ensures
        parse_outcome(mid.options, shorts, flags, b, r2, after, calls2) <==> parse_outcome(
            cleared(opts),
            shorts,
            flags,
            b,
            r2,
            after,
            calls2,
        ),
{
    let reg = cleared(opts);
    let init = Snapshot { options: reg, positional: seq![] };
    let run = scan(reg, shorts, a);
    assert(cleared(reg) =~= reg);
    if r1 == status(run) && mid == perform(init, run.acts) {
        lemma_perform_keeps_registry(init, run.acts);
    } else {
        let k = choose|k: int| stopped_at(reg, flags, init, run.acts, k, mid, calls1);
        lemma_perform_keeps_registry(init, run.acts.take(k + 1));
    }
}

/// `--name=v`, `--name v`, `-cv` and `-c v` are the same run: option `name`,
/// which takes a value and has short alias `c`, gets value `v`.
pub proof fn lemma_value_forms(
    opts: Seq<OptSpec>,
    shorts: Seq<(char, Seq<char>)>,
    name: Seq<char>,
    c: char,
    v: Seq<char>,
)
    requires
        sorted(opts),
        has_option(opts, name),
        option_named(opts, name).kind == ValueType::Required,
        short_target(shorts, c) == Some(name),
        name.len() > 0,
        no_eq(name),
        c != '-',
        v.len() > 0,
    ensures
        scan(cleared(opts), shorts, seq![long_token_with(name, v)]) == done(
            seq![Action::Assign(name, v)],
            Mode::Normal,
        ),
        scan(cleared(opts), shorts, seq![long_token(name), v]) == done(
            seq![Action::Assign(name, v)],
            Mode::Normal,
        ),
        scan(cleared(opts), shorts, seq![short_token(seq![c] + v)]) == done(
            seq![Action::Assign(name, v)],
            Mode::Normal,
        ),
        scan(cleared(opts), shorts, seq![short_token(seq![c]), v]) == done(
            seq![Action::Assign(name, v)],
            Mode::Normal,
        ),
{
    let reg = cleared(opts);
    lemma_kind(opts, name);
    lemma_long_body(name, v);
    lemma_scan_single(reg, shorts, long_token_with(name, v));
    lemma_scan_pair(reg, shorts, long_token(name), v);
    lemma_scan_single(reg, shorts, short_token(seq![c] + v));
    lemma_scan_pair(reg, shorts, short_token(seq![c]), v);
    let cs = (seq![c] + v);
    assert(short_token(cs).skip(1) =~= cs);
    assert(cs[0] == c);
    assert(cs.drop_first() =~= v);
    assert(short_token(seq![c]).skip(1) =~= seq![c]);
    assert(seq![Action::Assign(name, v)] =~= Seq::<Action>::empty() + seq![Action::Assign(name, v)]);
}

/// Whether every character of `cs` is a short alias of an option that takes
/// no value.
pub open spec fn all_flags(opts: Seq<OptSpec>, shorts: Seq<(char, Seq<char>)>, cs: Seq<char>) -> bool {
    forall|j: int| 0 <= j < cs.len() ==> alias_of_kind(opts, shorts, #[trigger] cs[j], ValueType::NoValue)
}

proof fn lemma_cluster_split(opts: Seq<OptSpec>, shorts: Seq<(char, Seq<char>)>, x: Seq<char>, y: Seq<char>)
    requires
        sorted(opts),
        all_flags(opts, shorts, x),
    ensures
        cluster_step(cleared(opts), shorts, x).err is None,
        cluster_step(cleared(opts), shorts, x).mode == Mode::Normal,
        cluster_step(cleared(opts), shorts, x + y) == (Step {
            acts: cluster_step(cleared(opts), shorts, x).acts + cluster_step(cleared(opts), shorts, y).acts,
            ..cluster_step(cleared(opts), shorts, y)
        }),
    decreases x.len(),
{
    let reg = cleared(opts);
    if x.len() == 0 {
        assert(x + y =~= y);
        assert(Seq::<Action>::empty() + cluster_step(reg, shorts, y).acts =~= cluster_step(reg, shorts, y).acts);
    } else {
        let t = x.drop_first();
        assert forall|j: int| 0 <= j < t.len() implies alias_of_kind(opts, shorts, #[trigger] t[j], ValueType::NoValue) by {
            assert(t[j] == x[j + 1]);
        }
        lemma_cluster_split(opts, shorts, t, y);
        assert(alias_of_kind(opts, shorts, x[0], ValueType::NoValue));
        lemma_kind(opts, short_target(shorts, x[0])->0);
        assert((x + y)[0] == x[0]);
        assert((x + y).drop_first() =~= t + y);
        let a = Action::Assign(short_target(shorts, x[0])->0, seq![]);
        let cx = cluster_step(reg, shorts, t).acts;
        let cy = cluster_step(reg, shorts, y).acts;
        assert(seq![a] + (cx + cy) =~= (seq![a] + cx) + cy);
    }
}

/// Short options that take no value may be grouped at will: after tokens
/// that leave the parser expecting an option, `-xy` does what `-x -y` does.
pub proof fn lemma_grouping(
    opts: Seq<OptSpec>,
    shorts: Seq<(char, Seq<char>)>,
    pre: Seq<Seq<char>>,
    x: Seq<char>,
    y: Seq<char>,
    post: Seq<Seq<char>>,
)
    requires
        sorted(opts),
        scan(cleared(opts), shorts, pre).err is None,
        scan(cleared(opts), shorts, pre).mode == Mode::Normal,
        all_flags(opts, shorts, x),
        x.len() > 0,
        y.len() > 0,
        x[0] != '-',
        y[0] != '-',
    ensures
        scan(cleared(opts), shorts, pre + seq![short_token(x + y)] + post) == scan(
            cleared(opts),
            shorts,
            pre + seq![short_token(x), short_token(y)] + post,
        ),
{
    let reg = cleared(opts);
    let start = done(seq![], Mode::Normal);
    let p = scan(reg, shorts, pre);
    lemma_cluster_split(opts, shorts, x, y);
    lemma_resume_concat(reg, shorts, start, pre, seq![short_token(x + y)] + post);
    lemma_resume_concat(reg, shorts, start, pre, seq![short_token(x), short_token(y)] + post);
    assert(pre + seq![short_token(x + y)] + post =~= pre + (seq![short_token(x + y)] + post));
    assert(pre + seq![short_token(x), short_token(y)] + post =~= pre + (seq![short_token(x), short_token(y)] + post));
    lemma_resume_concat(reg, shorts, p, seq![short_token(x + y)], post);
    lemma_resume_concat(reg, shorts, p, seq![short_token(x), short_token(y)], post);
    lemma_resume_snoc(reg, shorts, p, Seq::<Seq<char>>::empty(), short_token(x + y));
    assert(Seq::<Seq<char>>::empty().push(short_token(x + y)) =~= seq![short_token(x + y)]);
    lemma_resume_snoc(reg, shorts, p, Seq::<Seq<char>>::empty(), short_token(x));
    assert(Seq::<Seq<char>>::empty().push(short_token(x)) =~= seq![short_token(x)]);
    lemma_resume_snoc(reg, shorts, p, seq![short_token(x)], short_token(y));
    assert(seq![short_token(x)].push(short_token(y)) =~= seq![short_token(x), short_token(y)]);
    assert(short_token(x + y).skip(1) =~= x + y);
    assert(short_token(x).skip(1) =~= x);
    assert(short_token(y).skip(1) =~= y);
    assert(short_token(x + y)[1] == x[0]);
    assert(short_token(x)[1] == x[0]);
    assert(short_token(y)[1] == y[0]);
    let cx = cluster_step(reg, shorts, x).acts;
    let cy = cluster_step(reg, shorts, y).acts;
    assert(p.acts + (cx + cy) =~= (p.acts + cx) + cy);
}

/// A short option that takes no value and its long name do the same.
pub proof fn lemma_short_as_long(opts: Seq<OptSpec>, shorts: Seq<(char, Seq<char>)>, c: char, name: Seq<char>)
    requires
        sorted(opts),
        short_target(shorts, c) == Some(name),
        has_option(opts, name),
        option_named(opts, name).kind == ValueType::NoValue,
        c != '-',
        name.len() > 0,
        no_eq(name),
    ensures
        token_step(cleared(opts), shorts, Mode::Normal, short_token(seq![c])) == token_step(
            cleared(opts),
            shorts,
            Mode::Normal,
            long_token(name),
        ),
{
    let reg = cleared(opts);
    lemma_kind(opts, name);
    lemma_long_body(name, seq![]);
    assert(short_token(seq![c]).skip(1) =~= seq![c]);
    assert(seq![c].drop_first() =~= Seq::<char>::empty());
    assert(cluster_step(reg, shorts, Seq::<char>::empty()) == done(seq![], Mode::Normal));
    assert(seq![Action::Assign(name, seq![])] + Seq::<Action>::empty() =~= seq![Action::Assign(name, seq![])]);
}

proof fn lemma_past_separator(
    opts: Seq<OptSpec>,
    shorts: Seq<(char, Seq<char>)>,
    acts: Seq<Action>,
    post: Seq<Seq<char>>,
)
    ensures
        resume(opts, shorts, done(acts, Mode::PastSeparator), post) == done(
            acts + post.map_values(|t: Seq<char>| Action::Positional(t)),
            Mode::PastSeparator,
        ),
    decreases post.len(),
{
    if post.len() == 0 {
        assert(acts + post.map_values(|t: Seq<char>| Action::Positional(t)) =~= acts);
    } else {
        let acts2 = acts + seq![Action::Positional(post[0])];
        lemma_past_separator(opts, shorts, acts2, post.drop_first());
        assert(acts2 + post.drop_first().map_values(|t: Seq<char>| Action::Positional(t)) =~= acts
            + post.map_values(|t: Seq<char>| Action::Positional(t)));
    }
}

/// After a `--` met where an option may stand, every token is positional,
/// whatever it looks like (`-`, `--`, `-x`, `--name`).
pub proof fn lemma_separator(
    opts: Seq<OptSpec>,
    shorts: Seq<(char, Seq<char>)>,
    pre: Seq<Seq<char>>,
    post: Seq<Seq<char>>,
)
    requires
        scan(opts, shorts, pre).err is None,
        scan(opts, shorts, pre).mode == Mode::Normal,
    ensures
        scan(opts, shorts, pre + seq![long_token(seq![])] + post) == done(
            scan(opts, shorts, pre).acts + post.map_values(|t: Seq<char>| Action::Positional(t)),
            Mode::PastSeparator,
        ),
{
    let start = done(seq![], Mode::Normal);
    let p = scan(opts, shorts, pre);
    lemma_resume_snoc(opts, shorts, start, pre, long_token(seq![]));
    lemma_resume_concat(opts, shorts, start, pre.push(long_token(seq![])), post);
    assert(pre + seq![long_token(seq![])] + post =~= pre.push(long_token(seq![])) + post);
    assert(long_token(seq![]).skip(2) =~= Seq::<char>::empty());
    assert(p.acts + Seq::<Action>::empty() =~= p.acts);
    lemma_past_separator(opts, shorts, p.acts, post);
}

/// A value given with `=` to a long option that takes none is an error: the
/// parse ends with `InvVal`, unless a callback failed before, and no callback
/// runs for that token or any after it; with nothing before it, the result is
/// `InvVal` and no callback runs.
pub proof fn lemma_value_to_flag(
    opts: Seq<OptSpec>,
    shorts: Seq<(char, Seq<char>)>,
    flags: Seq<bool>,
    pre: Seq<Seq<char>>,
    name: Seq<char>,
    v: Seq<char>,
    post: Seq<Seq<char>>,
    r: RC,
    after: Snapshot,
    calls: Seq<Call>,
)
    requires
        sorted(opts),
        has_option(opts, name),
        option_named(opts, name).kind == ValueType::NoValue,
        name.len() > 0,
        no_eq(name),
        scan(cleared(opts), shorts, pre).err is None,
        scan(cleared(opts), shorts, pre).mode == Mode::Normal,
        parse_outcome(opts, shorts, flags, pre + seq![long_token_with(name, v)] + post, r, after, calls),
    ensures
        status(scan(cleared(opts), shorts, pre + seq![long_token_with(name, v)] + post)) == RC::InvVal,
        r == RC::InvVal || r == RC::Callback,
        r == RC::InvVal ==> calls == calls_of(cleared(opts), flags, scan(cleared(opts), shorts, pre).acts),
        pre.len() == 0 ==> r == RC::InvVal && calls.len() == 0,
{
    let reg = cleared(opts);
    let start = done(seq![], Mode::Normal);
    let t = long_token_with(name, v);
    let p = scan(reg, shorts, pre);
    lemma_kind(opts, name);
    lemma_long_body(name, v);
    lemma_resume_snoc(reg, shorts, start, pre, t);
    lemma_resume_concat(reg, shorts, start, pre.push(t), post);
    assert(pre + seq![t] + post =~= pre.push(t) + post);
    let q = resume(reg, shorts, start, pre.push(t));
    assert(q.err == Some(RC::InvVal));
    crate::model::lemma_resume_stuck(reg, shorts, q, post);
    assert(p.acts + Seq::<Action>::empty() =~= p.acts);
    if pre.len() == 0 {
        assert(scan(reg, shorts, pre) == start);
    }
}

/// A token that leaves an option waiting for its value, at the end of the
/// input, makes the parse end with `MissVal`, unless a callback failed
/// before; that option's callback does not run. With nothing before it, the
/// result is `MissVal` and no callback runs.
pub proof fn lemma_missing_value(
    opts: Seq<OptSpec>,
    shorts: Seq<(char, Seq<char>)>,
    flags: Seq<bool>,
    pre: Seq<Seq<char>>,
    name: Seq<char>,
    c: char,
    t: Seq<char>,
    r: RC,
    after: Snapshot,
    calls: Seq<Call>,
)
    requires
        sorted(opts),
        has_option(opts, name),
        option_named(opts, name).kind == ValueType::Required,
        name.len() > 0,
        no_eq(name),
        t == long_token(name) || (t == short_token(seq![c]) && c != '-' && short_target(shorts, c)
            == Some(name)),
        scan(cleared(opts), shorts, pre).err is None,
        scan(cleared(opts), shorts, pre).mode == Mode::Normal,
        parse_outcome(opts, shorts, flags, pre.push(t), r, after, calls),
    ensures
        status(scan(cleared(opts), shorts, pre.push(t))) == RC::MissVal,
        r == RC::MissVal || r == RC::Callback,
        r == RC::MissVal ==> calls == calls_of(cleared(opts), flags, scan(cleared(opts), shorts, pre).acts),
        pre.len() == 0 ==> r == RC::MissVal && calls.len() == 0,
{
    let reg = cleared(opts);
    let start = done(seq![], Mode::Normal);
    let p = scan(reg, shorts, pre);
    lemma_kind(opts, name);
    lemma_long_body(name, seq![]);
    lemma_resume_snoc(reg, shorts, start, pre, t);
    assert(short_token(seq![c]).skip(1) =~= seq![c]);
    assert(p.acts + Seq::<Action>::empty() =~= p.acts);
    if pre.len() == 0 {
        assert(scan(reg, shorts, pre) == start);
    }
}

/// An empty string given as a value, as `--name ""` or as `--name=`, is
/// accepted: the option then holds the empty string, which tells it apart
/// from an option left unset. Its callback, if any, runs once with the empty
/// value, and the result is `Okay` unless that callback returned `Err`.
pub proof fn lemma_empty_value(
    opts: Seq<OptSpec>,
    shorts: Seq<(char, Seq<char>)>,
    flags: Seq<bool>,
    name: Seq<char>,
    toks: Seq<Seq<char>>,
    r: RC,
    after: Snapshot,
    calls: Seq<Call>,
)
    requires
        sorted(opts),
        has_option(opts, name),
        option_named(opts, name).kind == ValueType::Required,
        name.len() > 0,
        no_eq(name),
        toks == seq![long_token(name), Seq::<char>::empty()] || toks == seq![
            long_token_with(name, Seq::<char>::empty()),
        ],
        parse_outcome(opts, shorts, flags, toks, r, after, calls),
    ensures
        r == RC::Okay || r == RC::Callback,
        value_of(after.options, name) == Some(Seq::<char>::empty()),
        r == RC::Okay ==> calls == fired(
            cleared(opts),
            flags,
            Action::Assign(name, Seq::<char>::empty()),
            true,
        ),
        r == RC::Callback ==> calls == seq![call_record(name, Seq::<char>::empty(), false)],
{
    let reg = cleared(opts);
    let e = Seq::<char>::empty();
    let a = Action::Assign(name, e);
    let init = Snapshot { options: reg, positional: seq![] };
    lemma_kind(opts, name);
    lemma_long_body(name, e);
    lemma_scan_single(reg, shorts, long_token_with(name, e));
    lemma_scan_pair(reg, shorts, long_token(name), e);
    assert(Seq::<Action>::empty() + seq![a] =~= seq![a]);
    let run = scan(reg, shorts, toks);
    assert(run == done(seq![a], Mode::Normal));
    assert(run.acts.take(1) =~= run.acts);
    assert(seq![a].drop_last() =~= Seq::<Action>::empty());
    assert(seq![a].last() == a);
    assert(calls_of(reg, flags, Seq::<Action>::empty()) == Seq::<Call>::empty());
    assert(Seq::<Call>::empty() + fired(reg, flags, a, true) =~= fired(reg, flags, a, true));
    assert(run.acts.take(0) =~= Seq::<Action>::empty());
    assert(Seq::<Call>::empty() + fired(reg, flags, a, false) =~= fired(reg, flags, a, false));
    crate::model::lemma_perform_single(init, a);
    lemma_value_set(reg, name, e);
}

proof fn lemma_calls_ok(opts: Seq<OptSpec>, flags: Seq<bool>, acts: Seq<Action>)
    ensures
        forall|i: int| 0 <= i < calls_of(opts, flags, acts).len() ==> (#[trigger] calls_of(opts, flags, acts)[i]).ok,
    decreases acts.len(),
{
    if acts.len() > 0 {
        lemma_calls_ok(opts, flags, acts.drop_last());
        let x = calls_of(opts, flags, acts.drop_last());
        let f = fired(opts, flags, acts.last(), true);
        assert forall|i: int| 0 <= i < (x + f).len() implies (#[trigger] (x + f)[i]).ok by {
            if i >= x.len() {
                assert((x + f)[i] == f[i - x.len()]);
            } else {
                assert((x + f)[i] == x[i]);
            }
        }
    }
}

proof fn lemma_run_errors(opts: Seq<OptSpec>, shorts: Seq<(char, Seq<char>)>, r: Step, toks: Seq<Seq<char>>)
    requires
        r.err is None || r.err == Some(RC::InvOpt) || r.err == Some(RC::InvVal),
    ensures
        resume(opts, shorts, r, toks).err is None || resume(opts, shorts, r, toks).err == Some(RC::InvOpt)
            || resume(opts, shorts, r, toks).err == Some(RC::InvVal),
    decreases toks.len(),
{
    if toks.len() > 0 {
        crate::model::lemma_step_errors(opts, shorts, r.mode, toks[0]);
        lemma_run_errors(opts, shorts, next(opts, shorts, r, toks[0]), toks.drop_first());
    }
}

/// A parse returns `RC::Callback` exactly when the last callback call
/// returned `Err`; every call before the last returned `Ok`.
pub proof fn lemma_callback_code(
    opts: Seq<OptSpec>,
    shorts: Seq<(char, Seq<char>)>,
    flags: Seq<bool>,
    toks: Seq<Seq<char>>,
    r: RC,
    after: Snapshot,
    calls: Seq<Call>,
)
    requires
        parse_outcome(opts, shorts, flags, toks, r, after, calls),
    ensures
        forall|i: int| 0 <= i < calls.len() - 1 ==> (#[trigger] calls[i]).ok,
        (r == RC::Callback) <==> (calls.len() > 0 && !calls.last().ok),
{
    let reg = cleared(opts);
    let init = Snapshot { options: reg, positional: seq![] };
    let run = scan(reg, shorts, toks);
    lemma_run_errors(reg, shorts, done(seq![], Mode::Normal), toks);
    if r == status(run) && after == perform(init, run.acts) && calls == calls_of(reg, flags, run.acts) {
        lemma_calls_ok(reg, flags, run.acts);
        if calls.len() > 0 {
            assert(calls.last() == calls[calls.len() - 1]);
        }
    } else {
        let k = choose|k: int| stopped_at(reg, flags, init, run.acts, k, after, calls);
        lemma_calls_ok(reg, flags, run.acts.take(k));
        let pre = calls_of(reg, flags, run.acts.take(k));
        assert forall|i: int| 0 <= i < calls.len() - 1 implies (#[trigger] calls[i]).ok by {
            assert(calls[i] == pre[i]);
        }
    }
}

} // verus!
