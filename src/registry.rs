//! Where a new option goes in the ordered registry.
use vstd::prelude::*;

use crate::model::{has_option, short_target, sorted, OptSpec};
use crate::text::{lemma_name_lt_total, lemma_name_lt_transitive, name_lt, upper_of};
use crate::value_type::ValueType;

verus! {

/// Index of the first option whose name does not sort before `name`.
pub open spec fn slot(opts: Seq<OptSpec>, name: Seq<char>) -> int
    decreases opts.len(),
{
    if opts.len() == 0 || !name_lt(opts[0].long, name) {
        0
    } else {
        1 + slot(opts.drop_first(), name)
    }
}

/// Whether an option named `name` is already there, to be overwritten.
pub open spec fn replaces(opts: Seq<OptSpec>, name: Seq<char>) -> bool {
    let i = slot(opts, name);
    i < opts.len() && opts[i].long == name
}

/// `x` put at index `i`, over the element there or in front of it.
pub open spec fn placed<T>(s: Seq<T>, i: int, replace: bool, x: T) -> Seq<T> {
    if replace {
        s.update(i, x)
    } else {
        s.insert(i, x)
    }
}

/// The registry after registering `o`: a new name is inserted in order, a
/// known one is overwritten.
pub open spec fn registered(opts: Seq<OptSpec>, o: OptSpec) -> Seq<OptSpec> {
    placed(opts, slot(opts, o.long), replaces(opts, o.long), o)
}

/// Callback flags, kept in step with `registered`.
pub open spec fn registered_flag(flags: Seq<bool>, opts: Seq<OptSpec>, name: Seq<char>, b: bool) -> Seq<bool> {
    placed(flags, slot(opts, name), replaces(opts, name), b)
}

/// The value label shown in help: the one given, else for an option that
/// takes a value its long name in upper case, else none.
pub open spec fn label_for(kind: ValueType, given: Option<Seq<char>>, upper: Seq<char>) -> Seq<char> {
    match given {
        Some(l) => l,
        None => if kind == ValueType::NoValue {
            seq![]
        } else {
            upper
        },
    }
}

/// The option that a registration describes, before any parse.
pub open spec fn new_opt(
    short: char,
    long: Seq<char>,
    help: Seq<char>,
    kind: ValueType,
    given: Option<Seq<char>>,
) -> OptSpec {
    OptSpec { short, long, help, kind, label: label_for(kind, given, upper_of(long)), value: None }
}

pub proof fn lemma_slot(opts: Seq<OptSpec>, name: Seq<char>, i: int)
    requires
        0 <= i <= opts.len(),
        forall|j: int| 0 <= j < i ==> name_lt(#[trigger] opts[j].long, name),
        i == opts.len() || !name_lt(opts[i].long, name),
    ensures
        slot(opts, name) == i,
    decreases i,
{
    if i > 0 {
        let t = opts.drop_first();
        assert forall|j: int| 0 <= j < i - 1 implies name_lt(#[trigger] t[j].long, name) by {
            assert(t[j] == opts[j + 1]);
        }
        assert(opts[0].long == opts[0].long);
        lemma_slot(t, name, i - 1);
    }
}

/// Registering keeps the registry sorted and every name it had.
pub proof fn lemma_registered(opts: Seq<OptSpec>, o: OptSpec, i: int)
    requires
        sorted(opts),
        slot(opts, o.long) == i,
        0 <= i <= opts.len(),
        forall|j: int| 0 <= j < i ==> name_lt(#[trigger] opts[j].long, o.long),
        i == opts.len() || !name_lt(opts[i].long, o.long),
    ensures
        sorted(registered(opts, o)),
        has_option(registered(opts, o), o.long),
        forall|n: Seq<char>| has_option(opts, n) ==> has_option(registered(opts, o), n),
{
    let r = registered(opts, o);
    if replaces(opts, o.long) {
        assert forall|a: int, b: int| 0 <= a < b < r.len() implies name_lt(#[trigger] r[a].long, #[trigger] r[b].long) by {
            assert(opts[a].long == r[a].long || a == i);
            assert(opts[b].long == r[b].long || b == i);
        }
        assert(r[i].long == o.long);
        assert forall|n: Seq<char>| has_option(opts, n) implies has_option(r, n) by {
            let j = choose|j: int| 0 <= j < opts.len() && #[trigger] opts[j].long == n;
            assert(r[j].long == n);
        }
    } else {
        assert forall|j: int| i <= j < opts.len() implies name_lt(o.long, #[trigger] opts[j].long) by {
            lemma_name_lt_total(opts[i].long, o.long);
            if j > i {
                lemma_name_lt_transitive(o.long, opts[i].long, opts[j].long);
            }
        }
        assert forall|a: int, b: int| 0 <= a < b < r.len() implies name_lt(#[trigger] r[a].long, #[trigger] r[b].long) by {
            if b < i {
                assert(r[a] == opts[a]);
                assert(r[b] == opts[b]);
            } else if a < i && b == i {
            } else if a < i && b > i {
                assert(r[b] == opts[b - 1]);
                if b - 1 >= i {
                    lemma_name_lt_transitive(opts[a].long, o.long, opts[b - 1].long);
                }
            } else if a == i {
                assert(r[b] == opts[b - 1]);
            } else {
                assert(r[a] == opts[a - 1]);
                assert(r[b] == opts[b - 1]);
            }
        }
        assert(r[i].long == o.long);
        assert forall|n: Seq<char>| has_option(opts, n) implies has_option(r, n) by {
            let j = choose|j: int| 0 <= j < opts.len() && #[trigger] opts[j].long == n;
            if j < i {
                assert(r[j].long == n);
            } else {
                assert(r[j + 1].long == n);
            }
        }
    }
}

pub proof fn lemma_short_target_push(shorts: Seq<(char, Seq<char>)>, x: (char, Seq<char>), c: char)
    ensures
        short_target(shorts.push(x), c) == if x.0 == c {
            Some(x.1)
        } else {
            short_target(shorts, c)
        },
{
    assert(shorts.push(x).drop_last() =~= shorts);
}

} // verus!
