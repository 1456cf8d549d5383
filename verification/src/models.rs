//! What the coder asks of an entropy model.
//!
//! A model assigns every symbol of its alphabet an interval `[c, c + p)` on the grid
//! `[0, 2^PRECISION]`, where `c` is the left-sided cumulative and `p` the
//! probability of the symbol. The intervals of different symbols do not overlap.
use vstd::arithmetic::power2::*;
use vstd::prelude::*;

use crate::bit_array::BitArray;

verus! {

/// A model that symbols can be encoded with.
pub trait EncoderModel<W: BitArray, const PRECISION: usize> {
    /// The symbols of the model.
    type Symbol;

    /// The left-sided cumulative and the probability of `symbol`, or an error if the
    /// symbol is not in the support of the model. The interval lies on the grid.
    fn left_cumulative_and_probability(&self, symbol: &Self::Symbol) -> (r: Result<(W, W), ()>)
        ensures
            r matches Ok(interval) ==> interval.0.value() + interval.1.value() <= pow2(
                PRECISION as nat,
            ),
    ;
}

/// A model that symbols can be decoded with.
pub trait DecoderModel<W: BitArray, const PRECISION: usize> {
    /// The symbols of the model.
    type Symbol;

    /// The symbol whose interval holds `quantile`, with the left-sided cumulative and
    /// the probability of that symbol.
    fn quantile_function(&self, quantile: W) -> (r: (Self::Symbol, W, W))
        requires
            quantile.value() < pow2(PRECISION as nat),
        ensures
            crate::rans::interval_holds(
                PRECISION as nat,
                r.1.value(),
                r.2.value(),
                quantile.value(),
            ),
    ;
}

/// Whether `answer` is what `model` may say of `symbol`.
pub open spec fn answers<W: BitArray, D: EncoderModel<W, PRECISION>, const PRECISION: usize>(
    model: &D,
    symbol: &D::Symbol,
    answer: Result<(W, W), ()>,
) -> bool {
    call_ensures(D::left_cumulative_and_probability, (model, symbol), answer)
}

/// The interval that is encoded on the answer of a model: the left-sided cumulative
/// and the probability as numbers, unless the model refuses the symbol or gives it
/// the probability zero.
pub open spec fn interval<W: BitArray>(answer: Result<(W, W), ()>) -> Option<(nat, nat)> {
    match answer {
        Ok(interval) => if interval.1.value() == 0 {
            None
        } else {
            Some((interval.0.value(), interval.1.value()))
        },
        Err(_) => None,
    }
}

/// Whether `model` may give, for `quantile`, the symbol `symbol` with the left-sided
/// cumulative `left_cumulative` and the probability `probability`.
pub open spec fn gives<W: BitArray, D: DecoderModel<W, PRECISION>, const PRECISION: usize>(
    model: &D,
    quantile: W,
    symbol: D::Symbol,
    left_cumulative: W,
    probability: W,
) -> bool {
    call_ensures(D::quantile_function, (model, quantile), (symbol, left_cumulative, probability))
}

/// A reference to a model is a model.
impl<'a, W: BitArray, D: EncoderModel<W, PRECISION>, const PRECISION: usize> EncoderModel<
    W,
    PRECISION,
> for &'a D {
    type Symbol = D::Symbol;

    /// What the model behind the reference answers.
    fn left_cumulative_and_probability(&self, symbol: &Self::Symbol) -> (r: Result<(W, W), ()>)
        ensures
            call_ensures(D::left_cumulative_and_probability, (*self, symbol), r),
    {
        (**self).left_cumulative_and_probability(symbol)
    }
}

/// A reference to a model is a model.
impl<'a, W: BitArray, D: DecoderModel<W, PRECISION>, const PRECISION: usize> DecoderModel<
    W,
    PRECISION,
> for &'a D {
    type Symbol = D::Symbol;

    /// What the model behind the reference answers.
    fn quantile_function(&self, quantile: W) -> (r: (Self::Symbol, W, W))
        ensures
            call_ensures(D::quantile_function, (*self, quantile), r),
    {
        (**self).quantile_function(quantile)
    }
}

} // verus!
