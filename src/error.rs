use vstd::prelude::*;

verus! {

/// Why an enum declaration was refused. Each error names the most specific
/// place it can: the index of an attribute or of a variant.
#[derive(PartialEq, Eq, Structural, Clone, Copy, Debug)]
pub enum CenumError {
    /// A representation directive names no supported integer type.
    InvalidRepr { attr: usize },
    /// Some variant carries fields: only tag-only enums are supported.
    FieldsNotSupported,
    /// A discriminant is neither an integer literal nor a negated one.
    ExpectedIntegerLiteral { variant: usize },
    /// A literal discriminant does not fit in 128 signed bits.
    LiteralOutOfRange { variant: usize },
    /// An explicit discriminant is below the value the variant would have had implicitly.
    DiscriminantReuse { variant: usize },
    /// An implicit discriminant would exceed 128 signed bits.
    DiscriminantOverflow { variant: usize },
    /// A resolved discriminant is not a value of the representation.
    OutOfRepr { variant: usize },
}

} // verus!
