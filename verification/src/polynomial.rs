//! The dealer's polynomial: the shared value as constant term, random
//! coefficients above it.

use crate::backend::{lemma_order};
use crate::backend::{values_of, FieldElement};
use crate::error::Error;
use crate::modular::{add_mod, mul_mod, pow_mod, lemma_reduce_small};
use rand_chacha::ChaCha20Rng;
use vstd::prelude::*;

verus! {

/// The sum of the first `k` terms `c[i] * x^i` of a polynomial, modulo `p`.
pub open spec fn poly_terms(p: nat, c: Seq<nat>, x: nat, k: nat) -> nat
    decreases k,
{
    if k == 0 {
        0
    } else {
        add_mod(
            p,
            poly_terms(p, c, x, (k - 1) as nat),
            mul_mod(p, c[k - 1], pow_mod(p, x, (k - 1) as nat)),
        )
    }
}

/// The value at `x` of the polynomial with coefficients `c`, lowest first.
pub open spec fn eval_poly(p: nat, c: Seq<nat>, x: nat) -> nat {
    poly_terms(p, c, x, c.len())
}

/// A polynomial with exactly `T` coefficients, lowest first.
pub struct Polynomial<F: FieldElement, const T: usize> {
    coefficients: Vec<F>,
}

impl<F: FieldElement, const T: usize> View for Polynomial<F, T> {
    type V = Seq<nat>;

    /// The values of the coefficients.
    closed spec fn view(&self) -> Seq<nat> {
        values_of(self.coefficients@)
    }
}

impl<F: FieldElement, const T: usize> Polynomial<F, T> {
    #[verifier::type_invariant]
    spec fn well_formed(self) -> bool {
        self.coefficients@.len() == T && T >= 2
    }

    /// The polynomial with the given coefficients. There must be `T` of them,
    /// and at least two.
    pub fn from_coefficients(coefficients: Vec<F>) -> (r: Result<Self, Error>)
        ensures
            r is Ok <==> T >= 2 && coefficients@.len() == T,
            r matches Err(e) ==> e == Error::InvalidParameters,
            r matches Ok(p) ==> p@ == values_of(coefficients@),
    {
        if T < 2 || coefficients.len() != T {
            return Err(Error::InvalidParameters);
        }
        Ok(Polynomial { coefficients })
    }

    /// A polynomial whose constant term is `secret` and whose other
    /// coefficients are drawn from the stream.
    pub fn build(secret: F, rng: &mut ChaCha20Rng) -> (r: Result<Self, Error>)
        ensures
            r is Ok <==> T >= 2,
            r matches Err(e) ==> e == Error::InvalidParameters,
            r matches Ok(p) ==> p@.len() == T && p@[0] == secret.value(),
    {
        if T < 2 {
            return Err(Error::InvalidParameters);
        }
        let mut coefficients: Vec<F> = Vec::new();
        coefficients.push(secret);
        let mut i: usize = 1;
        while i < T
            invariant
                1 <= i <= T,
                coefficients@.len() == i,
                coefficients@[0] == secret,
            decreases T - i,
        {
            let c = F::random(rng);
            coefficients.push(c);
            i += 1;
        }
        Ok(Polynomial { coefficients })
    }

    /// The coefficients, lowest first.
    pub fn coefficients(&self) -> (c: &[F])
        ensures
            values_of(c@) == self@,
            c@.len() == T,
            T >= 2,
    {
        proof {
            use_type_invariant(self);
        }
        self.coefficients.as_slice()
    }

    /// The value of the polynomial at `x`.
    pub fn evaluate(&self, x: F) -> (y: F)
        ensures
            y.value() == eval_poly(F::order(), self@, x.value()),
    {
        let mut acc = F::zero();
        let mut power = F::one();
        let mut i: usize = 0;
        proof {
            lemma_order::<F>();
            lemma_reduce_small(F::order(), 1);
        }
        while i < self.coefficients.len()
            invariant
                i <= self.coefficients@.len(),
                acc.value() == poly_terms(F::order(), self@, x.value(), i as nat),
                power.value() == pow_mod(F::order(), x.value(), i as nat),
            decreases self.coefficients@.len() - i,
        {
            let term = self.coefficients[i].times(power);
            acc = acc.plus(term);
            power = power.times(x);
            i += 1;
        }
        acc
    }
}

} // verus!
