//! The usage line and the help text, rendered from the registry.
use vstd::prelude::*;
use vstd::string::StringExecFns;

use crate::checkarg::ParserState;
use crate::model::OptSpec;
use crate::text::{blanks, byte_len, push_blanks};
use crate::value_type::ValueType;

verus! {

/// `"Usage: <usage line>"`, followed by the positional-argument usage if set.
pub open spec fn usage_text(usage: Seq<char>, pos_usage: Option<Seq<char>>) -> Seq<char> {
    match pos_usage {
        None => "Usage: "@ + usage,
        Some(s) => "Usage: "@ + usage + " "@ + s,
    }
}

/// Room that `=<LABEL>` takes after the long name; none for an option without
/// a value or without a label.
pub open spec fn value_width(o: OptSpec) -> int {
    if o.kind == ValueType::NoValue || byte_len(o.label) == 0 {
        0
    } else {
        byte_len(o.label) + 1
    }
}

pub open spec fn entry_width(o: OptSpec) -> int {
    value_width(o) + byte_len(o.long)
}

/// The widest `name=LABEL` among the options.
pub open spec fn widest(opts: Seq<OptSpec>) -> int
    decreases opts.len(),
{
    if opts.len() == 0 {
        0
    } else {
        let w = widest(opts.drop_last());
        let e = entry_width(opts.last());
        if w >= e {
            w
        } else {
            e
        }
    }
}

/// `"   -x,"` for an option with a short alias, six blanks otherwise.
pub open spec fn alias_column(o: OptSpec) -> Seq<char> {
    if o.short == '\0' {
        "      "@
    } else {
        "   -"@ + seq![o.short] + ","@
    }
}

/// One line of the option table; help texts start at column `space`.
pub open spec fn option_line(o: OptSpec, space: int) -> Seq<char> {
    alias_column(o) + " --"@ + o.long + (if value_width(o) == 0 {
        blanks(space - byte_len(o.long))
    } else {
        "="@ + o.label + blanks(space - byte_len(o.label) - 1 - byte_len(o.long))
    }) + o.help + "\n"@
}

pub open spec fn option_lines(opts: Seq<OptSpec>, space: int) -> Seq<char>
    decreases opts.len(),
{
    if opts.len() == 0 {
        seq![]
    } else {
        option_lines(opts.drop_last(), space) + option_line(opts.last(), space)
    }
}

pub open spec fn block(text: Option<Seq<char>>, heading: Seq<char>) -> Seq<char> {
    match text {
        Some(t) => "\n"@ + heading + t + "\n"@,
        None => seq![],
    }
}

/// The full help: usage, description, the option table, the positional
/// arguments' help and the appendix.
pub open spec fn help_text(
    usage: Seq<char>,
    pos_usage: Option<Seq<char>>,
    descr: Option<Seq<char>>,
    opts: Seq<OptSpec>,
    pos_help: Option<Seq<char>>,
    appendix: Option<Seq<char>>,
) -> Seq<char> {
    usage_text(usage, pos_usage) + "\n"@ + block(descr, seq![]) + "\nOptions:\n"@ + option_lines(
        opts,
        widest(opts) + 2,
    ) + block(pos_help, "Positional Arguments:\n"@) + block(appendix, seq![])
}

pub proof fn lemma_widest(opts: Seq<OptSpec>)
    ensures
        0 <= widest(opts) <= 2 * (usize::MAX as int) + 1,
        forall|j: int| 0 <= j < opts.len() ==> entry_width(#[trigger] opts[j]) <= widest(opts),
    decreases opts.len(),
{
    if opts.len() > 0 {
        lemma_widest(opts.drop_last());
        assert forall|j: int| 0 <= j < opts.len() implies entry_width(#[trigger] opts[j]) <= widest(opts) by {
            if j < opts.len() - 1 {
                assert(opts[j] == opts.drop_last()[j]);
            }
        }
    }
}

/// Appends the block that `text` makes under `heading`; nothing where it is absent.
fn push_block(out: &mut String, text: &Option<String>, heading: &str)
    ensures
        final(out)@ == old(out)@ + block(crate::checkarg::text_of(*text), heading@),
{
    match text {
        Some(t) => {
            out.append("\n");
            out.append(heading);
            out.append(t.as_str());
            out.append("\n");
            assert(final(out)@ =~= old(out)@ + block(crate::checkarg::text_of(*text), heading@));
        },
        None => {
            assert(final(out)@ =~= old(out)@ + block(crate::checkarg::text_of(*text), heading@));
        },
    }
}

impl ParserState {
    /// The usage line.
    pub fn usage(&self) -> (r: String)
        ensures
            r@ == usage_text(self.usage_line(), self.posarg_usage()),
    {
        let mut s = String::from_str("Usage: ");
        s.append(self.usage.as_str());
        match &self.posarg_help_usage {
            None => {},
            Some(p) => {
                s.append(" ");
                s.append(p.as_str());
            },
        }
        s
    }

    /// The table line of option `i`.
    fn option_line(&self, i: usize, space: u128) -> (r: String)
        requires
            i < self.options().len(),
            space >= entry_width(self.options()[i as int]) + 2,
        ensures
            r@ == option_line(self.options()[i as int], space as int),
    {
        let o = &self.options[i];
        let ghost spec = self.options()[i as int];
        let mut line = String::new();
        if o.sopt == '\0' {
            line.append("      ");
        } else {
            line.append("   -");
            line.push(o.sopt);
            line.append(",");
        }
        assert(line@ =~= alias_column(spec));
        line.append(" --");
        line.append(o.lopt.as_str());
        let long_len = o.lopt.as_str().len();
        let label_len = o.value_name.as_str().len();
        let ghost head = line@;
        if matches!(o.value_type, ValueType::NoValue) || label_len == 0 {
            push_blanks(&mut line, space - long_len as u128);
        } else {
            line.append("=");
            line.append(o.value_name.as_str());
            push_blanks(&mut line, space - label_len as u128 - 1 - long_len as u128);
        }
        line.append(o.help.as_str());
        line.append("\n");
        assert(line@ =~= option_line(spec, space as int));
        line
    }

    /// The full help text.
    pub fn autohelp(&self) -> (r: String)
        ensures
            r@ == help_text(
                self.usage_line(),
                self.posarg_usage(),
                self.description(),
                self.options(),
                self.posarg_help(),
                self.appendix_text(),
            ),
    {
        let ghost opts = self.options();
        proof {
            lemma_widest(opts);
        }
        let mut widest_so_far: u128 = 0;
        let mut i: usize = 0;
        while i < self.options.len()
            invariant
                i <= opts.len(),
                opts == self.options(),
                widest_so_far == widest(opts.take(i as int)),
                0 <= widest(opts.take(i as int)) <= 2 * (usize::MAX as int) + 1,
            decreases opts.len() - i,
        {
            let o = &self.options[i];
            let label_len = o.value_name.as_str().len();
            let vsize: u128 = if matches!(o.value_type, ValueType::NoValue) || label_len == 0 {
                0
            } else {
                label_len as u128 + 1
            };
            let w = vsize + o.lopt.as_str().len() as u128;
            proof {
                assert(opts.take(i + 1).drop_last() =~= opts.take(i as int));
                assert(opts.take(i + 1).last() == opts[i as int]);
                lemma_widest(opts.take(i + 1));
            }
            if w > widest_so_far {
                widest_so_far = w;
            }
            i = i + 1;
        }
        assert(opts.take(opts.len() as int) =~= opts);
        let space = widest_so_far + 2;
        let mut ss = self.usage();
        ss.append("\n");
        push_block(&mut ss, &self.descr, "");
        ss.append("\nOptions:\n");
        let ghost head = ss@;
        let mut i: usize = 0;
        assert(opts.take(0) =~= Seq::<OptSpec>::empty());
        assert(head + option_lines(opts.take(0), space as int) =~= head);
        while i < self.options.len()
            invariant
                i <= opts.len(),
                opts == self.options(),
                space == widest(opts) + 2,
                forall|j: int| 0 <= j < opts.len() ==> entry_width(#[trigger] opts[j]) <= widest(opts),
                ss@ == head + option_lines(opts.take(i as int), space as int),
            decreases opts.len() - i,
        {
            let line = self.option_line(i, space);
            proof {
                assert(opts.take(i + 1).drop_last() =~= opts.take(i as int));
                assert(opts.take(i + 1).last() == opts[i as int]);
            }
            ss.append(line.as_str());
            assert(ss@ =~= head + option_lines(opts.take(i + 1), space as int));
            i = i + 1;
        }
        push_block(&mut ss, &self.posarg_help_descr, "Positional Arguments:\n");
        push_block(&mut ss, &self.appendix, "");
        proof {
            reveal_strlit("");
            assert(""@ =~= Seq::<char>::empty());
            assert(opts.take(opts.len() as int) =~= opts);
        }
        assert(ss@ =~= help_text(
            self.usage_line(),
            self.posarg_usage(),
            self.description(),
            self.options(),
            self.posarg_help(),
            self.appendix_text(),
        ));
        ss
    }
}

} // verus!
