use vstd::prelude::*;

verus! {

/// Result codes of a parse.
#[derive(Debug, Clone, Copy, PartialEq, Eq, Structural)]
pub enum RC {
    Okay,
    Error,
    InvOpt,
    InvVal,
    MissVal,
    Callback,
}

/// The human-readable explanation of a result code.
pub open spec fn error_text(code: RC) -> Seq<char> {
    match code {
        RC::Okay => "Everything is fine"@,
        RC::Error => "An error occurred"@,
        RC::InvOpt => "Unknown command line option"@,
        RC::InvVal => "Value given to non-value option"@,
        RC::MissVal => "Missing value of option"@,
        RC::Callback => "Callback returned with error code"@,
    }
}

/// The variant's name as written in source, qualified by the type.
pub open spec fn code_name(code: RC) -> Seq<char> {
    match code {
        RC::Okay => "RC::Okay"@,
        RC::Error => "RC::Error"@,
        RC::InvOpt => "RC::InvOpt"@,
        RC::InvVal => "RC::InvVal"@,
        RC::MissVal => "RC::MissVal"@,
        RC::Callback => "RC::Callback"@,
    }
}

pub fn error_str(code: &RC) -> (r: &'static str)
    ensures
        r@ == error_text(*code),
{
    match code {
        RC::Okay => "Everything is fine",
        RC::Error => "An error occurred",
        RC::InvOpt => "Unknown command line option",
        RC::InvVal => "Value given to non-value option",
        RC::MissVal => "Missing value of option",
        RC::Callback => "Callback returned with error code",
    }
}

impl RC {
    /// The variant's qualified name, e.g. `RC::InvOpt`.
    pub fn name(&self) -> (r: &'static str)
        ensures
            r@ == code_name(*self),
    {
        match self {
            RC::Okay => "RC::Okay",
            RC::Error => "RC::Error",
            RC::InvOpt => "RC::InvOpt",
            RC::InvVal => "RC::InvVal",
            RC::MissVal => "RC::MissVal",
            RC::Callback => "RC::Callback",
        }
    }

    /// `"RC::<name>: <explanation>"`, the one-line report of a result code.
    pub fn message(&self) -> (r: String)
        ensures
            r@ == code_name(*self) + ": "@ + error_text(*self),
    {
        let mut s = String::from_str(self.name());
        s.append(": ");
        s.append(error_str(self));
        s
    }
}

} // verus!
