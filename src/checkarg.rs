//! The option registry, what a parse leaves behind, and the queries on both.
use vstd::prelude::*;
use vstd::string::StringExecFns;

use crate::model::{
    call_record, Call,
    cleared, has_option, lemma_cleared_eq, lemma_cleared_sorted, short_target, sorted, value_of,
    with_value, OptSpec, Snapshot,
};
use crate::registry::{
    lemma_registered, new_opt, replaces, slot, lemma_short_target_push, lemma_slot, placed, registered,
    registered_flag, };
use crate::text::{chars_of, less_than, name_lt, same_name, uppercase};
use crate::help::{help_text, usage_text};
use crate::rc::{error_str, error_text, RC};
use crate::value_type::ValueType;

verus! {

pub open spec fn text_of(o: Option<String>) -> Option<Seq<char>> {
    match o {
        Some(s) => Some(s@),
        None => None,
    }
}

/// One registered option.
pub(crate) struct Opt {
    pub(crate) sopt: char,
    pub(crate) lopt: String,
    pub(crate) help: String,
    pub(crate) value: Option<String>,
    pub(crate) value_name: String,
    pub(crate) value_type: ValueType,
}

impl Opt {
    pub(crate) open spec fn spec(&self) -> OptSpec {
        OptSpec {
            short: self.sopt,
            long: self.lopt@,
            help: self.help@,
            kind: self.value_type,
            label: self.value_name@,
            value: text_of(self.value),
        }
    }
}

/// The registry and the results of the last parse: what a callback sees.
pub struct ParserState {
    pub(crate) appname: String,
    pub(crate) appendix: Option<String>,
    pub(crate) descr: Option<String>,
    pub(crate) usage: String,
    pub(crate) posarg_help_descr: Option<String>,
    pub(crate) posarg_help_usage: Option<String>,
    /// Ordered by long name.
    pub(crate) options: Vec<Opt>,
    /// Short alias to long name; a later entry overrides an earlier one.
    pub(crate) short2long: Vec<(char, String)>,
    pub(crate) callname: String,
    pub(crate) posargs: Vec<String>,
}

impl ParserState {
    /// The registered options, in order of their long names.
    pub open(crate) spec fn options(&self) -> Seq<OptSpec> {
        self.options@.map_values(|o: Opt| o.spec())
    }

    /// The short aliases, in order of registration.
    pub open(crate) spec fn shorts(&self) -> Seq<(char, Seq<char>)> {
        self.short2long@.map_values(|p: (char, String)| (p.0, p.1@))
    }

    pub open(crate) spec fn positional(&self) -> Seq<Seq<char>> {
        self.posargs@.map_values(|s: String| s@)
    }

    pub open(crate) spec fn snapshot(&self) -> Snapshot {
        Snapshot { options: self.options(), positional: self.positional() }
    }

    pub open(crate) spec fn call_name(&self) -> Seq<char> {
        self.callname@
    }

    pub open(crate) spec fn app_name(&self) -> Seq<char> {
        self.appname@
    }

    pub open(crate) spec fn usage_line(&self) -> Seq<char> {
        self.usage@
    }

    pub open(crate) spec fn description(&self) -> Option<Seq<char>> {
        text_of(self.descr)
    }

    pub open(crate) spec fn appendix_text(&self) -> Option<Seq<char>> {
        text_of(self.appendix)
    }

    pub open(crate) spec fn posarg_usage(&self) -> Option<Seq<char>> {
        text_of(self.posarg_help_usage)
    }

    pub open(crate) spec fn posarg_help(&self) -> Option<Seq<char>> {
        text_of(self.posarg_help_descr)
    }

    /// Long names are in order (so each occurs once), and each short alias
    /// stands for a registered option.
    pub open(crate) spec fn wf(&self) -> bool {
        &&& sorted(self.options())
        &&& forall|c: char| #[trigger] short_target(self.shorts(), c) is Some ==> has_option(
            self.options(),
            short_target(self.shorts(), c)->0,
        )
    }

    /// The help texts and names, everything but the options and the parse.
    pub open(crate) spec fn same_texts(&self, other: &ParserState) -> bool {
        &&& self.app_name() == other.app_name()
        &&& self.usage_line() == other.usage_line()
        &&& self.description() == other.description()
        &&& self.appendix_text() == other.appendix_text()
        &&& self.posarg_usage() == other.posarg_usage()
        &&& self.posarg_help() == other.posarg_help()
    }

    /// Unsets every value and forgets the positional arguments.
    pub fn reset(&mut self)
        requires
            old(self).wf(),
        ensures
            final(self).wf(),
            final(self).options() == cleared(old(self).options()),
            final(self).positional().len() == 0,
            final(self).shorts() == old(self).shorts(),
            final(self).call_name() == old(self).call_name(),
            final(self).same_texts(&old(self)),
    {
        let ghost opts = self.options();
        let mut i: usize = 0;
        while i < self.options.len()
            invariant
                i <= self.options@.len(),
                self.options().len() == opts.len(),
                opts == old(self).options(),
                forall|j: int| 0 <= j < i ==> #[trigger] self.options()[j] == with_value(opts[j], None),
                forall|j: int| i <= j < opts.len() ==> #[trigger] self.options()[j] == opts[j],
                self.shorts() == old(self).shorts(),
                self.call_name() == old(self).call_name(),
                self.same_texts(&old(self)),
            decreases self.options@.len() - i,
        {
            let ghost prev = self.options@;
            let ghost prevs = self.options();
            assert(prevs[i as int] == opts[i as int]);
            self.options[i].value = None;
            assert(forall|j: int| 0 <= j < prev.len() && j != i ==> self.options@[j] == prev[j]);
            assert(forall|j: int| 0 <= j < prev.len() && j != i ==> #[trigger] self.options()[j] == prevs[j]);
            assert(self.options()[i as int] == with_value(opts[i as int], None));
            i = i + 1;
        }
        self.posargs.clear();
        assert(self.options() =~= cleared(opts));
        assert(self.positional() =~= Seq::<Seq<char>>::empty());
        proof {
            lemma_cleared_sorted(opts);
            lemma_cleared_eq(opts, self.options());
        }
    }

    /// Index of the option named `name`.
    pub(crate) fn find(&self, name: &str) -> (r: Option<usize>)
        ensures
            match r {
                Some(i) => i < self.options().len() && self.options()[i as int].long == name@,
                None => !has_option(self.options(), name@),
            },
    {
        let mut i: usize = 0;
        while i < self.options.len()
            invariant
                i <= self.options@.len(),
                forall|j: int| 0 <= j < i ==> #[trigger] self.options()[j].long != name@,
            decreases self.options@.len() - i,
        {
            if same_name(self.options[i].lopt.as_str(), name) {
                return Some(i);
            }
            i = i + 1;
        }
        None
    }

    /// The program name as the last parse found it in `argv[0]`.
    pub fn callname(&self) -> (r: &str)
        ensures
            r@ == self.call_name(),
    {
        self.callname.as_str()
    }

    /// Same as `callname`.
    pub fn argv0(&self) -> (r: &str)
        ensures
            r@ == self.call_name(),
    {
        self.callname.as_str()
    }

    /// The positional arguments of the last parse, in order.
    pub fn pos_args(&self) -> (r: &Vec<String>)
        ensures
            r@.map_values(|s: String| s@) == self.positional(),
    {
        &self.posargs
    }

    /// The value that the last parse gave `option`; an option without a value
    /// that was seen has the empty string.
    pub fn value(&self, option: &str) -> (r: Option<&str>)
        requires
            self.wf(),
        ensures
            match r {
                Some(v) => value_of(self.options(), option@) == Some(v@),
                None => value_of(self.options(), option@) is None,
            },
    {
        match self.find(option) {
            Some(i) => {
                proof {
                    crate::model::lemma_named(self.options(), i as int);
                }
                match &self.options[i].value {
                    Some(v) => Some(v.as_str()),
                    None => None,
                }
            },
            None => None,
        }
    }

    /// Whether the last parse saw `option`.
    pub fn isset(&self, option: &str) -> (r: bool)
        requires
            self.wf(),
        ensures
            r == value_of(self.options(), option@) is Some,
    {
        match self.find(option) {
            Some(i) => {
                proof {
                    crate::model::lemma_named(self.options(), i as int);
                }
                self.options[i].value.is_some()
            },
            None => false,
        }
    }
}

/// Code run when an option receives a value. It is handed the parser's state,
/// the option's long name and the value; `Err(())` stops the parse.
pub trait Callback {
    /// Every call made so far, in order: the option, the value and whether
    /// the call returned `Ok`.
    spec fn runs(&self) -> Seq<Call>;

    fn call(&mut self, state: &ParserState, option: &str, value: &str) -> (r: Result<(), ()>)
        ensures
            final(self).runs() == old(self).runs().push(call_record(option@, value@, r is Ok)),
    ;
}

/// A closure registered as a callback, with the record of its calls.
struct FnCallback<F> {
    f: F,
    log: Ghost<Seq<Call>>,
}

/// Runs a callback closure that the library's user registered. Nothing is
/// assumed of what it returns.
#[verifier::external_body]
fn run_closure<F: FnMut(&ParserState, &str, &str) -> Result<(), ()>>(
    f: &mut F,
    state: &ParserState,
    option: &str,
    value: &str,
) -> Result<(), ()> {
    f(state, option, value)
}

impl<F: FnMut(&ParserState, &str, &str) -> Result<(), ()>> Callback for FnCallback<F> {
    closed spec fn runs(&self) -> Seq<Call> {
        self.log@
    }

    fn call(&mut self, state: &ParserState, option: &str, value: &str) -> (r: Result<(), ()>) {
        let r = run_closure(&mut self.f, state, option, value);
        self.log = Ghost(self.log@.push(call_record(option@, value@, r is Ok)));
        r
    }
}

impl<F: FnMut(&ParserState, &str, &str) -> Result<(), ()>> FnCallback<F> {
    /// A callback that runs `f` and has made no call yet.
    fn new(f: F) -> (r: Self)
        ensures
            r.runs() == Seq::<Call>::empty(),
    {
        FnCallback { f, log: Ghost(Seq::empty()) }
    }
}

/// A command-line parser: the registry of options with their callbacks.
pub struct CheckArg<'a> {
    pub(crate) state: ParserState,
    /// The callback of each option, at the option's index.
    pub(crate) callbacks: Vec<Option<Box<dyn Callback + 'a>>>,
}

impl<'a> CheckArg<'a> {
    pub open(crate) spec fn parser(&self) -> ParserState {
        self.state
    }

    /// Which options have a callback, at the options' indices.
    pub open(crate) spec fn flags(&self) -> Seq<bool> {
        self.callbacks@.map_values(|c: Option<Box<dyn Callback + 'a>>| c is Some)
    }

    /// The record of each option's callback, at the options' indices; empty
    /// for an option without one.
    pub open(crate) spec fn runs(&self) -> Seq<Seq<Call>> {
        self.callbacks@.map_values(
            |c: Option<Box<dyn Callback + 'a>>|
                match c {
                    Some(b) => b.runs(),
                    None => Seq::<Call>::empty(),
                },
        )
    }

    pub open(crate) spec fn wf(&self) -> bool {
        &&& self.state.wf()
        &&& self.callbacks@.len() == self.state.options@.len()
    }

    /// A parser for program `appname`, with no options, whose usage line is
    /// `"<appname> [options]"`.
    pub fn new(appname: &str) -> (r: Self)
        ensures
            r.wf(),
            r.parser().options().len() == 0,
            r.parser().shorts().len() == 0,
            r.parser().positional().len() == 0,
            r.parser().call_name().len() == 0,
            r.parser().app_name() == appname@,
            r.parser().usage_line() == appname@ + " [options]"@,
            r.parser().description() is None,
            r.parser().appendix_text() is None,
            r.parser().posarg_usage() is None,
            r.parser().posarg_help() is None,
    {
        let state = ParserState {
            appname: String::from_str(appname),
            appendix: None,
            descr: None,
            usage: String::from_str(appname).concat(" [options]"),
            posarg_help_descr: None,
            posarg_help_usage: None,
            options: Vec::new(),
            short2long: Vec::new(),
            callname: String::new(),
            posargs: Vec::new(),
        };
        assert(state.shorts().len() == 0);
        assert forall|c: char| #[trigger] short_target(state.shorts(), c) is None by {}
        CheckArg { state, callbacks: Vec::new() }
    }

    /// Puts `opt` in the registry, with its callback, in order of long names.
    fn register(&mut self, opt: Opt, cb: Option<Box<dyn Callback + 'a>>)
        requires
            old(self).wf(),
            opt.value is None,
            cb matches Some(b) ==> b.runs() == Seq::<Call>::empty(),
        ensures
            final(self).wf(),
            has_option(final(self).parser().options(), opt.lopt@),
            final(self).parser().options() == registered(old(self).parser().options(), opt.spec()),
            final(self).flags() == registered_flag(
                old(self).flags(),
                old(self).parser().options(),
                opt.lopt@,
                cb is Some,
            ),
            final(self).runs() == placed(
                old(self).runs(),
                slot(old(self).parser().options(), opt.lopt@),
                replaces(old(self).parser().options(), opt.lopt@),
                Seq::<Call>::empty(),
            ),
            final(self).parser().shorts() == old(self).parser().shorts(),
            final(self).parser().positional() == old(self).parser().positional(),
            final(self).parser().call_name() == old(self).parser().call_name(),
            final(self).parser().same_texts(&old(self).parser()),
    {
        let ghost opts = self.state.options();
        let ghost o = opt.spec();
        let key = chars_of(opt.lopt.as_str());
        let mut i: usize = 0;
        while i < self.state.options.len()
            invariant
                i <= self.state.options@.len(),
                key@ == o.long,
                opts == self.state.options(),
                forall|j: int| 0 <= j < i ==> name_lt(#[trigger] opts[j].long, o.long),
            ensures
                i <= self.state.options@.len(),
                forall|j: int| 0 <= j < i ==> name_lt(#[trigger] opts[j].long, o.long),
                i == self.state.options@.len() || !name_lt(opts[i as int].long, o.long),
            decreases self.state.options@.len() - i,
        {
            let name = chars_of(self.state.options[i].lopt.as_str());
            if !less_than(&name, &key) {
                break;
            }
            i = i + 1;
        }
        proof {
            lemma_slot(opts, o.long, i as int);
            lemma_registered(opts, o, i as int);
        }
        let replace = i < self.state.options.len() && self.state.options[i].lopt == opt.lopt;
        let ghost flags = self.flags();
        let ghost runs = self.runs();
        if replace {
            self.state.options.set(i, opt);
            self.callbacks.set(i, cb);
        } else {
            self.state.options.insert(i, opt);
            self.callbacks.insert(i, cb);
        }
        assert(self.state.options() =~= registered(opts, o));
        assert(self.flags() =~= placed(flags, i as int, replace, cb is Some));
        assert(self.runs() =~= placed(runs, i as int, replace, Seq::<Call>::empty()));
        assert forall|c: char| #[trigger] short_target(self.state.shorts(), c) is Some implies has_option(
            self.state.options(),
            short_target(self.state.shorts(), c)->0,
        ) by {}
    }

    /// Adds the short alias `sopt` for option `lopt`.
    fn alias(&mut self, sopt: char, lopt: &String)
        requires
            old(self).wf(),
            has_option(old(self).parser().options(), lopt@),
        ensures
            final(self).wf(),
            final(self).parser().shorts() == old(self).parser().shorts().push((sopt, lopt@)),
            final(self).parser().options() == old(self).parser().options(),
            final(self).flags() == old(self).flags(),
            final(self).runs() == old(self).runs(),
            final(self).parser().positional() == old(self).parser().positional(),
            final(self).parser().call_name() == old(self).parser().call_name(),
            final(self).parser().same_texts(&old(self).parser()),
    {
        let ghost before = self.state.shorts();
        self.state.short2long.push((sopt, lopt.clone()));
        assert(self.state.shorts() =~= before.push((sopt, lopt@)));
        assert forall|c: char| #[trigger] short_target(self.state.shorts(), c) is Some implies has_option(
            self.state.options(),
            short_target(self.state.shorts(), c)->0,
        ) by {
            lemma_short_target_push(before, (sopt, lopt@), c);
        }
    }

    /// Whether `self` is `old` with option `o` registered, with a callback or
    /// not, and with its short alias or not.
    pub open(crate) spec fn registers(&self, old: &CheckArg, o: OptSpec, cb: bool, alias: bool) -> bool {
        &&& self.wf()
        &&& self.parser().options() == registered(old.parser().options(), o)
        &&& self.flags() == registered_flag(old.flags(), old.parser().options(), o.long, cb)
        &&& self.runs() == placed(
            old.runs(),
            slot(old.parser().options(), o.long),
            replaces(old.parser().options(), o.long),
            Seq::<Call>::empty(),
        )
        &&& self.parser().shorts() == if alias {
            old.parser().shorts().push((o.short, o.long))
        } else {
            old.parser().shorts()
        }
        &&& self.parser().positional() == old.parser().positional()
        &&& self.parser().call_name() == old.parser().call_name()
        &&& self.parser().same_texts(&old.parser())
    }

    /// Registers option `-sopt`/`--lopt`. Without a value label given, an
    /// option that takes a value is labelled with `lopt` in upper case. A
    /// long name or short alias registered before is overridden.
    pub fn add(&mut self, sopt: char, lopt: &str, help: &str, value_type: ValueType, value_name: Option<&str>)
        requires
            old(self).wf(),
        ensures
            final(self).registers(
                &old(self),
                new_opt(sopt, lopt@, help@, value_type, text_of_str(value_name)),
                false,
                true,
            ),
    {
        let opt = Self::make_opt(sopt, lopt, help, value_type, value_name);
        let name = opt.lopt.clone();
        self.register(opt, None);
        self.alias(sopt, &name);
    }

    /// As `add`, with a callback run each time the option receives a value.
    pub fn add_cb<F: FnMut(&ParserState, &str, &str) -> Result<(), ()> + 'a>(
        &mut self,
        sopt: char,
        lopt: &str,
        help: &str,
        cb: F,
        value_type: ValueType,
        value_name: Option<&str>,
    )
        requires
            old(self).wf(),
        ensures
            final(self).registers(
                &old(self),
                new_opt(sopt, lopt@, help@, value_type, text_of_str(value_name)),
                true,
                true,
            ),
    {
        let opt = Self::make_opt(sopt, lopt, help, value_type, value_name);
        let name = opt.lopt.clone();
        let fc = FnCallback::new(cb);
        let b: Box<dyn Callback + 'a> = Box::new(fc);
        assert(b.runs() == Seq::<Call>::empty());
        let cb = Some(b);
        assert(cb matches Some(x) ==> x.runs() == Seq::<Call>::empty());
        self.register(opt, cb);
        self.alias(sopt, &name);
    }

    /// Registers option `--lopt`, which has no short alias.
    pub fn add_long(&mut self, lopt: &str, help: &str, value_type: ValueType, value_name: Option<&str>)
        requires
            old(self).wf(),
        ensures
            final(self).registers(
                &old(self),
                new_opt('\0', lopt@, help@, value_type, text_of_str(value_name)),
                false,
                false,
            ),
    {
        let opt = Self::make_opt('\0', lopt, help, value_type, value_name);
        self.register(opt, None);
    }

    /// As `add_long`, with a callback run each time the option receives a value.
    pub fn add_long_cb<F: FnMut(&ParserState, &str, &str) -> Result<(), ()> + 'a>(
        &mut self,
        lopt: &str,
        help: &str,
        cb: F,
        value_type: ValueType,
        value_name: Option<&str>,
    )
        requires
            old(self).wf(),
        ensures
            final(self).registers(
                &old(self),
                new_opt('\0', lopt@, help@, value_type, text_of_str(value_name)),
                true,
                false,
            ),
    {
        let opt = Self::make_opt('\0', lopt, help, value_type, value_name);
        let fc = FnCallback::new(cb);
        let b: Box<dyn Callback + 'a> = Box::new(fc);
        assert(b.runs() == Seq::<Call>::empty());
        let cb = Some(b);
        assert(cb matches Some(x) ==> x.runs() == Seq::<Call>::empty());
        self.register(opt, cb);
    }

    /// Registers `-h`/`--help`, which takes no value. A parse only records
    /// it like any other option: showing the help and ending the program is
    /// left to the caller, who finds it with `isset("help")`.
    pub fn add_autohelp(&mut self)
        requires
            old(self).wf(),
        ensures
            final(self).registers(
                &old(self),
                new_opt('h', "help"@, "show this help message and exit"@, ValueType::NoValue, Some(""@)),
                false,
                true,
            ),
    {
        self.add('h', "help", "show this help message and exit", ValueType::NoValue, Some(""));
    }

    /// Everything but the help texts stays.
    pub open(crate) spec fn same_but_texts(&self, old: &CheckArg) -> bool {
        &&& self.wf()
        &&& self.parser().options() == old.parser().options()
        &&& self.parser().shorts() == old.parser().shorts()
        &&& self.flags() == old.flags()
        &&& self.runs() == old.runs()
        &&& self.parser().positional() == old.parser().positional()
        &&& self.parser().call_name() == old.parser().call_name()
        &&& self.parser().app_name() == old.parser().app_name()
    }

    /// Text shown at the end of the help.
    pub fn set_appendix(&mut self, appendix: &str)
        requires
            old(self).wf(),
        ensures
            final(self).same_but_texts(&old(self)),
            final(self).parser().appendix_text() == Some(appendix@),
            final(self).parser().usage_line() == old(self).parser().usage_line(),
            final(self).parser().description() == old(self).parser().description(),
            final(self).parser().posarg_usage() == old(self).parser().posarg_usage(),
            final(self).parser().posarg_help() == old(self).parser().posarg_help(),
    {
        self.state.appendix = Some(String::from_str(appendix));
    }

    /// Text shown between the usage line and the options.
    pub fn set_description(&mut self, desc: &str)
        requires
            old(self).wf(),
        ensures
            final(self).same_but_texts(&old(self)),
            final(self).parser().description() == Some(desc@),
            final(self).parser().usage_line() == old(self).parser().usage_line(),
            final(self).parser().appendix_text() == old(self).parser().appendix_text(),
            final(self).parser().posarg_usage() == old(self).parser().posarg_usage(),
            final(self).parser().posarg_help() == old(self).parser().posarg_help(),
    {
        self.state.descr = Some(String::from_str(desc));
    }

    /// How positional arguments appear in the usage line, and their help.
    pub fn set_posarg_help(&mut self, usage: &str, desc: &str)
        requires
            old(self).wf(),
        ensures
            final(self).same_but_texts(&old(self)),
            final(self).parser().posarg_usage() == Some(usage@),
            final(self).parser().posarg_help() == Some(desc@),
            final(self).parser().usage_line() == old(self).parser().usage_line(),
            final(self).parser().description() == old(self).parser().description(),
            final(self).parser().appendix_text() == old(self).parser().appendix_text(),
    {
        self.state.posarg_help_usage = Some(String::from_str(usage));
        self.state.posarg_help_descr = Some(String::from_str(desc));
    }

    /// Replaces the usage line, `"<appname> [options]"` by default.
    pub fn set_usage_line(&mut self, usage: &str)
        requires
            old(self).wf(),
        ensures
            final(self).same_but_texts(&old(self)),
            final(self).parser().usage_line() == usage@,
            final(self).parser().description() == old(self).parser().description(),
            final(self).parser().appendix_text() == old(self).parser().appendix_text(),
            final(self).parser().posarg_usage() == old(self).parser().posarg_usage(),
            final(self).parser().posarg_help() == old(self).parser().posarg_help(),
    {
        self.state.usage = String::from_str(usage);
    }

    /// The state that callbacks see: the registry and the last parse.
    pub fn state(&self) -> (r: &ParserState)
        ensures
            *r == self.parser(),
    {
        &self.state
    }

    /// The program name as the last parse found it in `argv[0]`.
    pub fn callname(&self) -> (r: &str)
        ensures
            r@ == self.parser().call_name(),
    {
        self.state.callname()
    }

    /// Same as `callname`.
    pub fn argv0(&self) -> (r: &str)
        ensures
            r@ == self.parser().call_name(),
    {
        self.state.argv0()
    }

    /// The positional arguments of the last parse, in order.
    pub fn pos_args(&self) -> (r: &Vec<String>)
        ensures
            r@.map_values(|s: String| s@) == self.parser().positional(),
    {
        self.state.pos_args()
    }

    /// The value that the last parse gave `option`; an option without a value
    /// that was seen has the empty string.
    pub fn value(&self, option: &str) -> (r: Option<&str>)
        requires
            self.wf(),
        ensures
            match r {
                Some(v) => value_of(self.parser().options(), option@) == Some(v@),
                None => value_of(self.parser().options(), option@) is None,
            },
    {
        self.state.value(option)
    }

    /// Whether the last parse saw `option`.
    pub fn isset(&self, option: &str) -> (r: bool)
        requires
            self.wf(),
        ensures
            r == value_of(self.parser().options(), option@) is Some,
    {
        self.state.isset(option)
    }

    /// The explanation of a result code.
    pub fn strerr(code: &RC) -> (r: &'static str)
        ensures
            r@ == error_text(*code),
    {
        error_str(code)
    }

    /// The usage line.
    pub fn usage(&self) -> (r: String)
        ensures
            r@ == usage_text(self.parser().usage_line(), self.parser().posarg_usage()),
    {
        self.state.usage()
    }

    /// The full help text.
    pub fn autohelp(&self) -> (r: String)
        ensures
            r@ == help_text(
                self.parser().usage_line(),
                self.parser().posarg_usage(),
                self.parser().description(),
                self.parser().options(),
                self.parser().posarg_help(),
                self.parser().appendix_text(),
            ),
    {
        self.state.autohelp()
    }

    /// The option record for a registration; without a label given, one
    /// that takes a value is labelled with its long name in upper case.
    fn make_opt(sopt: char, lopt: &str, help: &str, value_type: ValueType, value_name: Option<&str>) -> (r: Opt)
        ensures
            r.spec() == new_opt(sopt, lopt@, help@, value_type, text_of_str(value_name)),
    {
        let value_name = match value_name {
            Some(v) => String::from_str(v),
            None => match value_type {
                ValueType::NoValue => String::new(),
                ValueType::Required => uppercase(lopt),
            },
        };
        Opt {
            sopt,
            lopt: String::from_str(lopt),
            help: String::from_str(help),
            value: None,
            value_name,
            value_type,
        }
    }
}

pub open spec fn text_of_str(o: Option<&str>) -> Option<Seq<char>> {
    match o {
        Some(s) => Some(s@),
        None => None,
    }
}

} // verus!
