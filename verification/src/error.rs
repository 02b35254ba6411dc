use vstd::prelude::*;

verus! {

/// The kinds of failure that the library reports.
#[derive(Clone, Copy, Debug, PartialEq, Eq, Structural)]
pub enum ShapeError {
    /// Two facts state different values for the same property.
    Contradiction,
    /// A product of two expressions that both contain the symbol, or a
    /// quotient that is no expression with integer coefficients.
    NonPolynomial,
    /// An integer was asked of an expression that contains the symbol.
    StillSymbolic,
    /// A target shape that does not fit the input shape.
    InvalidReshape,
    /// A target shape that is not a constant.
    VariableShape,
    /// A reference to an outlet that the graph does not hold.
    DanglingReference,
    /// A division by the zero dimension.
    DivisionByZero,
    /// A coefficient that does not fit in 64 bits.
    Overflow,
}

/// A property of a fact that inference can leave unknown.
#[derive(Clone, Copy, Debug, PartialEq, Eq, Structural)]
pub enum Field {
    DatumType,
    Rank,
    /// The dimension at this place of the shape.
    Dim(usize),
}

/// Why inference gave no resolved facts.
#[derive(Clone, Copy, Debug, PartialEq, Eq, Structural)]
pub enum InferenceError {
    /// A rule failed.
    Rule(ShapeError),
    /// The rules are satisfied and the fact at `place` still lacks `field`.
    UnderConstrained { place: usize, field: Field },
}

} // verus!
