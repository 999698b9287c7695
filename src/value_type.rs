use vstd::prelude::*;

verus! {

/// Whether an option takes a value.
#[derive(Debug, Clone, Copy, PartialEq, Eq, Structural)]
pub enum ValueType {
    NoValue,
    Required,
}

pub open spec fn kind_name(kind: ValueType) -> Seq<char> {
    match kind {
        ValueType::NoValue => "ValueType::NoValue"@,
        ValueType::Required => "ValueType::Required"@,
    }
}

impl ValueType {
    /// The variant's qualified name, e.g. `ValueType::Required`.
    pub fn name(&self) -> (r: &'static str)
        ensures
            r@ == kind_name(*self),
    {
        match self {
            ValueType::NoValue => "ValueType::NoValue",
            ValueType::Required => "ValueType::Required",
        }
    }
}

} // verus!
