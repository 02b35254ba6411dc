use vstd::prelude::*;
use crate::error::ShapeError;

verus! {

/// Whether an integer fits in a signed 64-bit coefficient.
pub open spec fn fits(v: int) -> bool {
    i64::MIN <= v <= i64::MAX
}

/// A tensor extent: the affine expression `constant + coeff * S` over the one
/// symbol `S`. Every affine function has exactly one such pair, so two
/// dimensions are equal exactly when they denote the same function.
#[derive(Clone, Copy, Debug, PartialEq, Eq, Structural, Hash)]
pub struct SymDim {
    pub constant: i64,
    pub coeff: i64,
}

impl SymDim {
    /// The extent that the expression denotes once the symbol stands for `s`.
    pub open spec fn value_at(self, s: int) -> int {
        self.constant + self.coeff * s
    }

    /// The literal dimension `v`.
    pub open spec fn lit(v: int) -> SymDim
        recommends
            fits(v),
    {
        SymDim { constant: v as i64, coeff: 0 }
    }

    /// The symbol `S` itself.
    pub open spec fn sym() -> SymDim {
        SymDim { constant: 0, coeff: 1 }
    }

    pub open spec fn is_literal(self) -> bool {
        self.coeff == 0
    }

    /// The sum of two expressions, where its coefficients fit.
    pub open spec fn spec_add(self, other: SymDim) -> SymDim
        recommends
            fits(self.constant + other.constant),
            fits(self.coeff + other.coeff),
    {
        SymDim {
            constant: (self.constant + other.constant) as i64,
            coeff: (self.coeff + other.coeff) as i64,
        }
    }

    /// The product of two expressions: defined when at most one of them contains
    /// the symbol and the coefficients of the product fit.
    pub open spec fn spec_mul(self, other: SymDim) -> Result<SymDim, ShapeError> {
        if self.coeff != 0 && other.coeff != 0 {
            Err(ShapeError::NonPolynomial)
        } else {
            let c = self.constant * other.constant;
            let k = self.constant * other.coeff + self.coeff * other.constant;
            if fits(c) && fits(k) {
                Ok(SymDim { constant: c as i64, coeff: k as i64 })
            } else {
                Err(ShapeError::Overflow)
            }
        }
    }

    /// Quotient and remainder of `self` by `other`.
    ///
    /// By an expression that contains the symbol only its integer multiples can
    /// be divided, with remainder 0. By a non-zero literal `d` the coefficient of
    /// the symbol must be a multiple of `d`; the constant part is divided with a
    /// remainder in `0 .. |d|`.
    pub open spec fn spec_div(self, other: SymDim) -> Result<(SymDim, i64), ShapeError> {
        if other.coeff != 0 {
            if self.coeff == i64::MIN && other.coeff == -1 {
                Err(ShapeError::Overflow)
            } else if self.coeff % other.coeff == 0 && (self.coeff / other.coeff)
                * other.constant == self.constant {
                Ok((SymDim { constant: (self.coeff / other.coeff) as i64, coeff: 0 }, 0i64))
            } else {
                Err(ShapeError::NonPolynomial)
            }
        } else if other.constant == 0 {
            Err(ShapeError::DivisionByZero)
        } else {
            let d = other.constant;
            if (self.coeff == i64::MIN || self.constant == i64::MIN) && d == -1 {
                Err(ShapeError::Overflow)
            } else if self.coeff % d != 0 {
                Err(ShapeError::NonPolynomial)
            } else {
                Ok(
                    (
                        SymDim {
                            constant: (self.constant / d) as i64,
                            coeff: (self.coeff / d) as i64,
                        },
                        (self.constant % d) as i64,
                    ),
                )
            }
        }
    }

    /// The integer that a literal denotes.
    pub open spec fn spec_to_integer(self) -> Result<i64, ShapeError> {
        if self.coeff == 0 {
            Ok(self.constant)
        } else {
            Err(ShapeError::StillSymbolic)
        }
    }

    /// Whether `self` is an exact multiple of `other`.
    pub open spec fn divides_evenly(self, other: SymDim) -> bool {
        match self.spec_div(other) {
            Ok((_, r)) => r == 0,
            Err(_) => false,
        }
    }

    pub fn from_integer(v: i64) -> (r: SymDim)
        ensures
            r == SymDim::lit(v as int),
    {
        SymDim { constant: v, coeff: 0 }
    }

    pub fn symbol() -> (r: SymDim)
        ensures
            r == SymDim::sym(),
    {
        SymDim { constant: 0, coeff: 1 }
    }

    pub fn is_integer(&self) -> (r: bool)
        ensures
            r == self.is_literal(),
    {
        self.coeff == 0
    }

    /// Fails with `StillSymbolic` exactly when the expression contains the symbol.
    pub fn to_integer(&self) -> (r: Result<i64, ShapeError>)
        ensures
            r == self.spec_to_integer(),
    {
        if self.coeff == 0 {
            Ok(self.constant)
        } else {
            Err(ShapeError::StillSymbolic)
        }
    }

    /// Addition never fails; the two sums must fit in 64 bits.
    pub fn add(&self, other: &SymDim) -> (r: SymDim)
        requires
            fits(self.constant + other.constant),
            fits(self.coeff + other.coeff),
        ensures
            r == self.spec_add(*other),
            forall|s: int| r.value_at(s) == self.value_at(s) + other.value_at(s),
    {
        let r = SymDim { constant: self.constant + other.constant, coeff: self.coeff + other.coeff };
        proof {
            assert forall|s: int| r.value_at(s) == self.value_at(s) + other.value_at(s) by {
                assert((self.coeff + other.coeff) * s == self.coeff * s + other.coeff * s)
                    by (nonlinear_arith);
            }
        }
        r
    }

    /// Addition that reports coefficients out of range instead of asking the
    /// caller to exclude them.
    pub fn checked_add(&self, other: &SymDim) -> (r: Result<SymDim, ShapeError>)
        ensures
            r == (if fits(self.constant + other.constant) && fits(self.coeff + other.coeff) {
                Ok::<SymDim, ShapeError>(self.spec_add(*other))
            } else {
                Err::<SymDim, ShapeError>(ShapeError::Overflow)
            }),
    {
        match (self.constant.checked_add(other.constant), self.coeff.checked_add(other.coeff)) {
            (Some(c), Some(k)) => Ok(SymDim { constant: c, coeff: k }),
            _ => Err(ShapeError::Overflow),
        }
    }

    /// Fails with `NonPolynomial` exactly when both operands contain the symbol,
    /// and otherwise with `Overflow` exactly when a coefficient of the product
    /// does not fit.
    pub fn mul(&self, other: &SymDim) -> (r: Result<SymDim, ShapeError>)
        ensures
            r == self.spec_mul(*other),
            r matches Ok(p) ==> forall|s: int| p.value_at(s) == self.value_at(s) * other.value_at(s),
    {
        if self.coeff != 0 && other.coeff != 0 {
            return Err(ShapeError::NonPolynomial);
        }
        let (lit, lin) = if self.coeff == 0 {
            (self.constant, other.coeff)
        } else {
            (other.constant, self.coeff)
        };
        proof {
            assert(self.constant * other.coeff + self.coeff * other.constant == lit * lin)
                by (nonlinear_arith)
                requires
                    (self.coeff == 0 && lit == self.constant && lin == other.coeff) || (other.coeff
                        == 0 && lit == other.constant && lin == self.coeff),
            ;
        }
        match (self.constant.checked_mul(other.constant), lit.checked_mul(lin)) {
            (Some(c), Some(k)) => {
                let p = SymDim { constant: c, coeff: k };
                proof {
                    assert forall|s: int| p.value_at(s) == self.value_at(s) * other.value_at(
                        s,
                    ) by {
                        assert((self.constant + self.coeff * s) * (other.constant + other.coeff
                            * s) == self.constant * other.constant + (self.constant * other.coeff
                            + self.coeff * other.constant) * s) by (nonlinear_arith)
                            requires
                                self.coeff == 0 || other.coeff == 0,
                        ;
                    }
                }
                Ok(p)
            },
            _ => Err(ShapeError::Overflow),
        }
    }

    /// Division with quotient and remainder; see `spec_div` for the cases.
    pub fn maybe_div(&self, other: &SymDim) -> (r: Result<(SymDim, i64), ShapeError>)
        ensures
            r == self.spec_div(*other),
    {
        if other.coeff != 0 {
            if self.coeff == i64::MIN && other.coeff == -1 {
                return Err(ShapeError::Overflow);
            }
            let rk = self.coeff.checked_rem_euclid(other.coeff);
            let q = self.coeff.checked_div_euclid(other.coeff);
            match (rk, q) {
                (Some(rk), Some(q)) => {
                    if rk != 0 {
                        return Err(ShapeError::NonPolynomial);
                    }
                    match q.checked_mul(other.constant) {
                        Some(p) => {
                            if p == self.constant {
                                Ok((SymDim { constant: q, coeff: 0 }, 0))
                            } else {
                                Err(ShapeError::NonPolynomial)
                            }
                        },
                        None => Err(ShapeError::NonPolynomial),
                    }
                },
                _ => {
                    proof {
                        lemma_quotient_fits(self.coeff as int, other.coeff as int);
                    }
                    Err(ShapeError::NonPolynomial)
                },
            }
        } else if other.constant == 0 {
            Err(ShapeError::DivisionByZero)
        } else {
            let d = other.constant;
            if (self.coeff == i64::MIN || self.constant == i64::MIN) && d == -1 {
                return Err(ShapeError::Overflow);
            }
            proof {
                lemma_quotient_fits(self.coeff as int, d as int);
                lemma_quotient_fits(self.constant as int, d as int);
            }
            let rk = self.coeff.checked_rem_euclid(d);
            let qk = self.coeff.checked_div_euclid(d);
            let qc = self.constant.checked_div_euclid(d);
            let rc = self.constant.checked_rem_euclid(d);
            match (rk, qk, qc, rc) {
                (Some(rk), Some(qk), Some(qc), Some(rc)) => {
                    if rk != 0 {
                        Err(ShapeError::NonPolynomial)
                    } else {
                        Ok((SymDim { constant: qc, coeff: qk }, rc))
                    }
                },
                _ => Err(ShapeError::NonPolynomial),
            }
        }
    }
}

/// A quotient of 64-bit integers fits in 64 bits, but for `i64::MIN / -1`; the
/// remainder always does.
pub proof fn lemma_quotient_fits(x: int, d: int)
    requires
        fits(x),
        fits(d),
        d != 0,
        !(x == i64::MIN && d == -1),
    ensures
        fits(x / d),
        fits(x % d),
{
    assert(fits(x / d) && fits(x % d)) by (nonlinear_arith)
        requires
            fits(x),
            fits(d),
            d != 0,
            !(x == i64::MIN && d == -1),
    ;
}

/// The sum of two integers, taken as dimensions, is the integer `m + n`.
pub proof fn lemma_add_of_integers(m: i64, n: i64)
    requires
        fits(m + n),
    ensures
        SymDim::lit(m as int).spec_add(SymDim::lit(n as int)).spec_to_integer() == Ok::<
            i64,
            ShapeError,
        >((m + n) as i64),
{
}

/// The symbol times a non-zero integer `n`, divided by `n`, is the symbol again,
/// with remainder 0.
pub proof fn lemma_div_undoes_mul(n: i64)
    requires
        n != 0,
    ensures
        SymDim::sym().spec_mul(SymDim::lit(n as int)) == Ok::<SymDim, ShapeError>(
            SymDim { constant: 0, coeff: n },
        ),
        (SymDim { constant: 0, coeff: n }).spec_div(SymDim::lit(n as int)) == Ok::<
            (SymDim, i64),
            ShapeError,
        >((SymDim::sym(), 0i64)),
{
    let d = n as int;
    assert(d % d == 0 && d / d == 1 && 0int % d == 0 && 0int / d == 0) by (nonlinear_arith)
        requires
            d != 0,
    ;
    assert(0int * d == 0 && 1int * d == d && 0int * 0int == 0);
}

/// An expression that contains the symbol has no integer value.
pub proof fn lemma_symbolic_has_no_integer(e: SymDim)
    requires
        e.coeff != 0,
    ensures
        e.spec_to_integer() == Err::<i64, ShapeError>(ShapeError::StillSymbolic),
{
}

/// Division is sound: where it succeeds, quotient times divisor plus remainder
/// is the dividend, whatever the symbol stands for, and the remainder of a
/// division by a literal `d` lies in `0 .. |d|`.
pub proof fn lemma_div_is_sound(a: SymDim, b: SymDim, s: int)
    requires
        a.spec_div(b) is Ok,
    ensures
        ({
            let (q, r) = a.spec_div(b)->Ok_0;
            &&& a.value_at(s) == q.value_at(s) * b.value_at(s) + r
            &&& b.coeff != 0 ==> r == 0
            &&& b.coeff == 0 ==> 0 <= r && (r < b.constant || r < -b.constant)
        }),
{
    let (q, r) = a.spec_div(b)->Ok_0;
    if b.coeff != 0 {
        let k = a.coeff as int;
        let bk = b.coeff as int;
        let bc = b.constant as int;
        let qq = k / bk;
        assert(fits(qq) && k == qq * bk) by (nonlinear_arith)
            requires
                bk != 0,
                k % bk == 0,
                qq == k / bk,
                fits(k),
                fits(bk),
                !(k == i64::MIN && bk == -1),
        ;
        assert(qq * bc + (qq * bk) * s == qq * (bc + bk * s)) by (nonlinear_arith);
        assert(q.coeff * s == 0) by (nonlinear_arith)
            requires
                q.coeff == 0,
        ;
    } else {
        let d = b.constant as int;
        let c = a.constant as int;
        let k = a.coeff as int;
        lemma_quotient_fits(c, d);
        lemma_quotient_fits(k, d);
        assert(c == (c / d) * d + c % d && k == (k / d) * d && 0 <= c % d && (c % d < d || c % d
            < -d)) by (nonlinear_arith)
            requires
                d != 0,
                k % d == 0,
        ;
        assert(b.coeff * s == 0) by (nonlinear_arith)
            requires
                b.coeff == 0,
        ;
        assert(((c / d) + (k / d) * s) * d == (c / d) * d + ((k / d) * d) * s)
            by (nonlinear_arith);
    }
}

/// Multiplication is sound: where it succeeds, the product denotes the product
/// of what the operands denote, whatever the symbol stands for.
pub proof fn lemma_mul_is_sound(a: SymDim, b: SymDim, s: int)
    requires
        a.spec_mul(b) is Ok,
    ensures
        a.spec_mul(b)->Ok_0.value_at(s) == a.value_at(s) * b.value_at(s),
{
    assert((a.constant + a.coeff * s) * (b.constant + b.coeff * s) == a.constant * b.constant + (
    a.constant * b.coeff + a.coeff * b.constant) * s) by (nonlinear_arith)
        requires
            a.coeff == 0 || b.coeff == 0,
    ;
}

} // verus!
