//! Encoding and decoding of single symbols, and the steps that they are made of.
use vstd::arithmetic::power2::*;
use vstd::prelude::*;

use crate::backends::{Backend, ReadStackBackend, WriteBackend};
use crate::bit_array::BitArray;
use crate::models::{DecoderModel, EncoderModel};
use crate::rans::AnsState;
use crate::stack::AnsCoder;
use crate::EncodingError;

verus! {

impl<W: BitArray, S: BitArray, B: Backend<W>> AnsCoder<W, S, B> {
    /// The quantile that the next symbol is decoded with: the `PRECISION` low bits of
    /// the state.
    pub fn quantile<const PRECISION: usize>(&self) -> (quantile: W)
        requires
            PRECISION <= W::bits(),
        ensures
            quantile.value() == crate::rans::quantile(self@.state, PRECISION as nat),
    {
        proof {
            W::lemma_bits();
            lemma_pow2_pos(PRECISION as nat);
            crate::rans::lemma_pow2_monotonic(PRECISION as nat, W::bits());
        }
        crate::bit_array::from_u64(crate::bit_array::low_bits(self.state.to_u64(), PRECISION))
    }

    /// Takes the `PRECISION` low bits off the state and returns them.
    pub fn chop_quantile_off_state<const PRECISION: usize>(&mut self) -> (quantile: W)
        requires
            PRECISION <= W::bits(),
        ensures
            old(self).leads_to(final(self)),
            final(self).backend() == old(self).backend(),
            quantile.value() == crate::rans::quantile(old(self)@.state, PRECISION as nat),
            final(self)@ == (AnsState {
                bulk: old(self)@.bulk,
                state: old(self)@.state / pow2(PRECISION as nat),
            }),
    {
        proof {
            self.lemma_leads_to_itself();
        }
        let quantile = self.quantile::<PRECISION>();
        let state = self.state.to_u64();
        proof {
            W::lemma_bits();
            S::lemma_value_in_range(self.state);
            lemma_pow2_pos(PRECISION as nat);
        }
        self.state = crate::bit_array::from_u64(crate::bit_array::shr_bits(state, PRECISION));
        quantile
    }

    /// Multiplies the state by `probability` and adds `remainder`.
    pub fn encode_remainder_onto_state(&mut self, remainder: W, probability: W)
        requires
            old(self)@.state * probability.value() + remainder.value() < pow2(S::bits()),
        ensures
            old(self).leads_to(final(self)),
            final(self).backend() == old(self).backend(),
            final(self)@ == (AnsState {
                bulk: old(self)@.bulk,
                state: old(self)@.state * probability.value() + remainder.value(),
            }),
    {
        proof {
            self.lemma_leads_to_itself();
            S::lemma_bits();
            lemma2_to64();
        }
        let state = self.state.to_u64();
        self.state = crate::bit_array::from_u64(
            state * probability.to_u64() + remainder.to_u64(),
        );
    }

    /// Divides the state by `probability` and returns the remainder, unless the
    /// probability is zero.
    pub fn decode_remainder_off_state(&mut self, probability: W) -> (r: Result<W, EncodingError>)
        ensures
            old(self).leads_to(final(self)),
            final(self).backend() == old(self).backend(),
            probability.value() == 0 ==> r == Err::<W, EncodingError>(
                EncodingError::ImpossibleSymbol,
            ) && final(self)@ == old(self)@,
            probability.value() != 0 ==> r.is_ok() && r.unwrap().value() == old(self)@.state
                % probability.value() && final(self)@ == (AnsState {
                bulk: old(self)@.bulk,
                state: old(self)@.state / probability.value(),
            }),
    {
        proof {
            self.lemma_leads_to_itself();
            W::lemma_value_in_range(probability);
        }
        let state = self.state.to_u64();
        let probability = probability.to_u64();
        if probability == 0 {
            return Err(EncodingError::ImpossibleSymbol);
        }
        proof {
            S::lemma_value_in_range(self.state);
        }
        let remainder = crate::bit_array::from_u64(state % probability);
        self.state = crate::bit_array::from_u64(state / probability);
        Ok(remainder)
    }

    /// Shifts the state up by `PRECISION` bits and puts `quantile` into the bits that
    /// became free.
    pub fn append_quantile_to_state<const PRECISION: usize>(&mut self, quantile: W)
        requires
            PRECISION <= W::bits(),
            quantile.value() < pow2(PRECISION as nat),
            old(self)@.state * pow2(PRECISION as nat) + quantile.value() < pow2(S::bits()),
        ensures
            old(self).leads_to(final(self)),
            final(self).backend() == old(self).backend(),
            final(self)@ == (AnsState {
                bulk: old(self)@.bulk,
                state: old(self)@.state * pow2(PRECISION as nat) + quantile.value(),
            }),
    {
        proof {
            self.lemma_leads_to_itself();
            S::lemma_bits();
            W::lemma_bits();
            lemma2_to64();
        }
        let state = self.state.to_u64();
        let shifted = if PRECISION >= 64 {
            // Only a state of zero can be shifted by its whole width.
            assert(state == 0) by (nonlinear_arith)
                requires
                    state * pow2(PRECISION as nat) < pow2(64),
                    PRECISION == 64,
            ;
            assert(state * pow2(PRECISION as nat) == 0) by (nonlinear_arith)
                requires
                    state == 0,
            ;
            0
        } else {
            crate::bit_array::shl_u64(state, PRECISION)
        };
        self.state = crate::bit_array::from_u64(shifted + quantile.to_u64());
    }

    /// Moves the low word of the state onto the bulk.
    pub fn flush_state(&mut self) where B: WriteBackend<W>
        requires
            W::bits() <= S::bits(),
        ensures
            old(self).leads_to(final(self)),
            final(self)@ == crate::rans::flush(old(self)@, W::bits()),
    {
        let state = self.state.to_u64();
        let ghost before = self.bulk.stack();
        let word: W = W::from_u64_truncated(state);
        self.bulk.write(word);
        proof {
            W::lemma_bits();
            S::lemma_value_in_range(self.state);
            lemma_pow2_pos(W::bits());
            assert(crate::bit_array::values(self.bulk.stack()) =~= crate::bit_array::values(
                before,
            ).push(word.value()));
        }
        self.state = crate::bit_array::from_u64(crate::bit_array::shr_bits(state, W::width()));
    }

    /// Moves the last word of the bulk back under the state, if there is one.
    pub fn try_refill_state(&mut self) -> (r: Result<(), ()>) where B: ReadStackBackend<W>
        requires
            crate::rans::valid_widths(W::bits(), S::bits()),
            old(self)@.state < crate::rans::threshold(W::bits(), S::bits()),
        ensures
            old(self).leads_to(final(self)),
            r.is_ok() == (old(self)@.bulk.len() > 0),
            r.is_ok() ==> final(self)@ == crate::rans::refill(old(self)@, W::bits()),
            r.is_err() ==> final(self)@ == old(self)@,
    {
        let ghost before = self.bulk.stack();
        match self.bulk.read() {
            Some(word) => {
                proof {
                    S::lemma_bits();
                    lemma2_to64();
                    self.lemma_in_range();
                    assert(crate::bit_array::values(self.bulk.stack())
                        =~= crate::bit_array::values(before).drop_last());
                    let pending = AnsState {
                        bulk: crate::bit_array::values(before),
                        state: self.state.value(),
                    };
                    crate::bit_array::lemma_values_in_range(before);
                    crate::rans::lemma_refill_in_range(pending, W::bits(), S::bits());
                }
                let state = self.state.to_u64();
                self.state = crate::bit_array::from_u64(
                    crate::bit_array::shl_u64(state, W::width()) + word.to_u64(),
                );
                Ok(())
            },
            None => Err(()),
        }
    }

    /// Refills the state if it is below the threshold and the bulk has a word left.
    /// This always succeeds: with an empty bulk, the coder stays as it is.
    pub fn try_refill_state_if_necessary(&mut self) -> (r: Result<(), ()>) where
        B: ReadStackBackend<W>,

        requires
            crate::rans::valid_widths(W::bits(), S::bits()),
        ensures
            old(self).leads_to(final(self)),
            r.is_ok(),
            final(self)@ == crate::rans::refill_if_necessary(old(self)@, W::bits(), S::bits()),
    {
        proof {
            self.lemma_leads_to_itself();
            S::lemma_bits();
        }
        if self.state.to_u64() < crate::bit_array::pow2_u64(S::width() - W::width()) {
            let _ = self.try_refill_state();
        }
        Ok(())
    }

    /// Encodes a symbol that the model gave the left-sided cumulative
    /// `left_cumulative` and the probability `probability`. Fails, and leaves the
    /// coder as it is, if the probability is zero.
    pub fn encode_interval<const PRECISION: usize>(
        &mut self,
        left_cumulative: W,
        probability: W,
    ) -> (r: Result<(), EncodingError>) where B: WriteBackend<W>
        requires
            old(self).wf(),
            crate::rans::valid_precision(W::bits(), PRECISION as nat),
            left_cumulative.value() + probability.value() <= pow2(PRECISION as nat),
        ensures
            old(self).leads_to(final(self)),
            final(self).wf(),
            probability.value() == 0 ==> r == Err::<(), EncodingError>(
                EncodingError::ImpossibleSymbol,
            ) && final(self)@ == old(self)@,
            probability.value() != 0 ==> r.is_ok() && final(self)@ == crate::rans::encode_step(
                old(self)@,
                W::bits(),
                S::bits(),
                PRECISION as nat,
                left_cumulative.value(),
                probability.value(),
            ),
    {
        proof {
            self.lemma_leads_to_itself();
        }
        if probability.to_u64() == 0 {
            return Err(EncodingError::ImpossibleSymbol);
        }
        let ghost c = left_cumulative.value();
        let ghost p = probability.value();
        let ghost w = W::bits();
        let ghost s = S::bits();
        let ghost prec = PRECISION as nat;
        proof {
            S::lemma_bits();
            crate::rans::lemma_encode_step_well_formed(self@, w, s, prec, c, p);
        }
        let shifted = crate::bit_array::shr_u64(self.state.to_u64(), S::width() - PRECISION);
        if shifted >= probability.to_u64() {
            self.flush_state();
        }
        let remainder = match self.decode_remainder_off_state(probability) {
            Ok(remainder) => remainder,
            Err(error) => {
                return Err(error);
            },
        };
        proof {
            lemma2_to64();
        }
        let quantile: W = crate::bit_array::from_u64(
            left_cumulative.to_u64() + remainder.to_u64(),
        );
        self.append_quantile_to_state::<PRECISION>(quantile);
        Ok(())
    }

    /// Decodes a symbol that the model gave the left-sided cumulative
    /// `left_cumulative` and the probability `probability`, when asked for the
    /// symbol at the quantile of this coder.
    pub fn decode_interval<const PRECISION: usize>(
        &mut self,
        left_cumulative: W,
        probability: W,
    ) where B: ReadStackBackend<W>

        requires
            old(self).wf(),
            crate::rans::valid_precision(W::bits(), PRECISION as nat),
            crate::rans::interval_holds(
                PRECISION as nat,
                left_cumulative.value(),
                probability.value(),
                crate::rans::quantile(old(self)@.state, PRECISION as nat),
            ),
        ensures
            old(self).leads_to(final(self)),
            final(self).wf(),
            final(self)@ == crate::rans::decode_step(
                old(self)@,
                W::bits(),
                S::bits(),
                PRECISION as nat,
                left_cumulative.value(),
                probability.value(),
            ),
    {
        let ghost c = left_cumulative.value();
        let ghost p = probability.value();
        let ghost w = W::bits();
        let ghost s = S::bits();
        let ghost prec = PRECISION as nat;
        proof {
            crate::rans::lemma_decode_step_well_formed(self@, w, s, prec, c, p);
        }
        let quantile = self.chop_quantile_off_state::<PRECISION>();
        proof {
            W::lemma_value_in_range(quantile);
        }
        let remainder: W = crate::bit_array::from_u64(
            quantile.to_u64() - left_cumulative.to_u64(),
        );
        self.encode_remainder_onto_state(remainder, probability);
        let _ = self.try_refill_state_if_necessary();
    }

    /// Encodes `symbol` with `model`. Fails, and leaves the coder as it is, if the
    /// model gives the symbol no probability.
    pub fn encode_symbol<D, const PRECISION: usize>(
        &mut self,
        symbol: &D::Symbol,
        model: &D,
    ) -> (r: Result<(), EncodingError>) where B: WriteBackend<W>, D: EncoderModel<W, PRECISION>
        requires
            old(self).wf(),
            crate::rans::valid_precision(W::bits(), PRECISION as nat),
        ensures
            old(self).leads_to(final(self)),
            final(self).wf(),
            r.is_ok() ==> exists|c: nat, p: nat|
                crate::rans::valid_interval(PRECISION as nat, c, p) && final(self)@
                    == #[trigger] crate::rans::encode_step(
                    old(self)@,
                    W::bits(),
                    S::bits(),
                    PRECISION as nat,
                    c,
                    p,
                ),
            r.is_err() ==> r == Err::<(), EncodingError>(EncodingError::ImpossibleSymbol)
                && final(self)@ == old(self)@,
            exists|answer: Result<(W, W), ()>|
                #[trigger] crate::models::answers::<W, D, PRECISION>(model, symbol, answer)
                    && match crate::models::interval(answer) {
                    Some(interval) => r.is_ok() && final(self)@ == crate::rans::encode_step(
                        old(self)@,
                        W::bits(),
                        S::bits(),
                        PRECISION as nat,
                        interval.0,
                        interval.1,
                    ),
                    None => r.is_err(),
                },
    {
        proof {
            self.lemma_leads_to_itself();
        }
        let answer = model.left_cumulative_and_probability(symbol);
        assert(crate::models::answers::<W, D, PRECISION>(model, symbol, answer));
        match answer {
            Ok((left_cumulative, probability)) => {
                self.encode_interval::<PRECISION>(left_cumulative, probability)
            },
            Err(_) => Err(EncodingError::ImpossibleSymbol),
        }
    }

    /// Decodes a symbol with `model`. This cannot fail: a coder that has no data
    /// left still gives symbols, which carry no information.
    pub fn decode_symbol<D, const PRECISION: usize>(&mut self, model: &D) -> (symbol:
        D::Symbol) where B: ReadStackBackend<W>, D: DecoderModel<W, PRECISION>
        requires
            old(self).wf(),
            crate::rans::valid_precision(W::bits(), PRECISION as nat),
        ensures
            old(self).leads_to(final(self)),
            final(self).wf(),
            exists|c: nat, p: nat|
                crate::rans::interval_holds(
                    PRECISION as nat,
                    c,
                    p,
                    crate::rans::quantile(old(self)@.state, PRECISION as nat),
                ) && final(self)@ == #[trigger] crate::rans::decode_step(
                    old(self)@,
                    W::bits(),
                    S::bits(),
                    PRECISION as nat,
                    c,
                    p,
                ),
            exists|quantile: W, c: W, p: W|
                quantile.value() == crate::rans::quantile(old(self)@.state, PRECISION as nat)
                    && #[trigger] crate::models::gives::<W, D, PRECISION>(
                    model,
                    quantile,
                    symbol,
                    c,
                    p,
                ) && final(self)@ == crate::rans::decode_step(
                    old(self)@,
                    W::bits(),
                    S::bits(),
                    PRECISION as nat,
                    c.value(),
                    p.value(),
                ),
    {
        let quantile = self.quantile::<PRECISION>();
        proof {
            lemma_pow2_pos(PRECISION as nat);
        }
        let (symbol, left_cumulative, probability) = model.quantile_function(quantile);
        assert(crate::models::gives::<W, D, PRECISION>(
            model,
            quantile,
            symbol,
            left_cumulative,
            probability,
        ));
        self.decode_interval::<PRECISION>(left_cumulative, probability);
        symbol
    }
}

} // verus!
