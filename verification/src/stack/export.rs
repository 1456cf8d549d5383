//! Reading a coder from compressed data, and writing it out.
use vstd::arithmetic::div_mod::*;
use vstd::arithmetic::power2::*;
use vstd::prelude::*;

use crate::backends::{
    Backend, LookaheadBackend, ReadCursorBackward, ReadCursorForward, ReadFromIterBackend,
    ReadStackBackend, WordBuffer, WriteBackend,
};
use crate::bit_array::BitArray;
use crate::rans::AnsState;
use crate::stack::AnsCoder;

verus! {

impl<W: BitArray, S: BitArray, B: Backend<W>> AnsCoder<W, S, B> {
    /// Reads a coder from its compressed representation. Rejects, and hands back,
    /// data that ends in a zero word: no coder is stored like that.
    pub fn from_compressed(compressed: B) -> (r: Result<Self, B>) where B: ReadStackBackend<W>
        requires
            crate::rans::valid_widths(W::bits(), S::bits()),
        ensures
            r.is_ok() == crate::format::is_compressed(
                crate::bit_array::values(compressed.stack()),
            ),
            r matches Ok(coder) ==> coder.wf() && coder@ == crate::format::from_compressed(
                crate::bit_array::values(compressed.stack()),
                W::bits(),
                S::bits(),
            ) && compressed.leads_to(&coder.backend()),
            r matches Err(rejected) ==> rejected == compressed,
    {
        match compressed.peek() {
            Some(last) => {
                if last.to_u64() == 0 {
                    return Err(compressed);
                }
            },
            None => {},
        }
        let coder = AnsCoder {
            bulk: compressed,
            state: crate::bit_array::zero(),
            phantom: core::marker::PhantomData,
        };
        Ok(coder.absorbed())
    }

    /// Reads a coder from arbitrary data, as if a word with the value one followed
    /// the data. The coder is never empty.
    pub fn from_binary(data: B) -> (coder: Self) where B: ReadStackBackend<W>
        requires
            crate::rans::valid_widths(W::bits(), S::bits()),
        ensures
            coder.wf(),
            coder@ == crate::format::from_binary(
                crate::bit_array::values(data.stack()),
                W::bits(),
                S::bits(),
            ),
            coder@.state > 0,
            data.leads_to(&coder.backend()),
    {
        proof {
            W::lemma_bits();
            S::lemma_bits();
        }
        let count = S::width() / W::width();
        let mut data = data;
        let mut chunks: Vec<W> = Vec::new();
        chunks.push(crate::bit_array::one());
        let ghost start = AnsState { bulk: crate::bit_array::values(data.stack()), state: 1 };
        let ghost w = W::bits();
        let ghost s = S::bits();
        proof {
            lemma2_to64();
            assert(crate::bit_array::values(chunks@).drop_last() =~= Seq::<nat>::empty());
            assert(crate::format::assemble(crate::bit_array::values(chunks@), w) == 1) by {
                assert(crate::format::assemble(Seq::<nat>::empty(), w) == 0);
                assert(0 * pow2(w) == 0) by (nonlinear_arith);
            }
            crate::bit_array::lemma_values_in_range(data.stack());
            assert(1 * w == w) by (nonlinear_arith);
            assert(0 * w == 0) by (nonlinear_arith);
            data.lemma_leads_to_itself();
        }
        let ghost given = data;
        while chunks.len() < count
            invariant
                given.leads_to(&data),
                crate::rans::valid_widths(w, s),
                w == W::bits(),
                s == S::bits(),
                s <= 64,
                count * w == s,
                1 <= chunks@.len() <= count,
                crate::format::absorb(
                    AnsState {
                        bulk: crate::bit_array::values(data.stack()),
                        state: crate::format::assemble(crate::bit_array::values(chunks@), w),
                    },
                    w,
                    s,
                ) == crate::format::absorb(start, w, s),
                pow2(((chunks@.len() - 1) * w) as nat) <= crate::format::assemble(
                    crate::bit_array::values(chunks@),
                    w,
                ) < pow2(((chunks@.len() - 1) * w + 1) as nat),
            ensures
                chunks@.len() == count || data.stack().len() == 0,
            decreases count - chunks@.len(),
        {
            let ghost before = data.stack();
            let ghost middle = data;
            let ghost read = chunks@;
            let ghost state = crate::format::assemble(crate::bit_array::values(read), w);
            proof {
                // As long as a word is missing, the state is below the threshold.
                let n = read.len() as int;
                assert((n - 1) * w + 1 <= s - w) by (nonlinear_arith)
                    requires
                        1 <= n,
                        n + 1 <= count,
                        count * w == s,
                        w >= 1,
                ;
                crate::rans::lemma_pow2_monotonic(
                    ((read.len() - 1) * w + 1) as nat,
                    (s - w) as nat,
                );
            }
            let next = data.read();
            proof {
                given.lemma_leads_to_is_transitive(&middle, &data);
            }
            match next {
                Some(word) => {
                    chunks.push(word);
                    proof {
                        assert(crate::bit_array::values(chunks@).drop_last()
                            =~= crate::bit_array::values(read));
                        assert(crate::bit_array::values(data.stack())
                            =~= crate::bit_array::values(before).drop_last());
                        W::lemma_value_in_range(word);
                        let k = ((read.len() - 1) * w) as nat;
                        crate::rans::lemma_pow2_product(k, w);
                        crate::rans::lemma_pow2_product(k + 1, w);
                        assert((read.len() - 1) * w + w == (chunks@.len() - 1) * w)
                            by (nonlinear_arith)
                            requires
                                chunks@.len() == read.len() + 1,
                        ;
                        assert(pow2(k) * pow2(w) <= state * pow2(w) + word.value() < pow2(k + 1)
                            * pow2(w)) by (nonlinear_arith)
                            requires
                                pow2(k) <= state < pow2(k + 1),
                                word.value() < pow2(w),
                        ;
                    }
                },
                None => {
                    break ;
                },
            }
        }
        proof {
            let last = AnsState {
                bulk: crate::bit_array::values(data.stack()),
                state: crate::format::assemble(crate::bit_array::values(chunks@), w),
            };
            if data.stack().len() > 0 {
                // All words of the state were read: it has reached the threshold.
                assert(((chunks@.len() - 1) * w) as nat == (s - w) as nat) by (nonlinear_arith)
                    requires
                        chunks@.len() == count,
                        count * w == s,
                ;
            }
            crate::format::lemma_absorb_well_formed(start, w, s);
            lemma_pow2_pos(((chunks@.len() - 1) * w) as nat);
            assert(chunks@.take(chunks@.len() as int) =~= chunks@);
            assert(((chunks@.len() - 1) * w + 1) as nat <= s) by (nonlinear_arith)
                requires
                    1 <= chunks@.len() <= count,
                    count * w == s,
                    w >= 1,
            ;
            lemma_small_mod(last.state, pow2(s));
        }
        let state: S = crate::bit_array::bit_array_from_chunks(chunks.as_slice());
        AnsCoder { bulk: data, state, phantom: core::marker::PhantomData }
    }

    /// Moves words from the bulk under the state until the state reaches the
    /// threshold or the bulk is empty.
    fn absorbed(self) -> (coder: Self) where B: ReadStackBackend<W>
        requires
            crate::rans::valid_widths(W::bits(), S::bits()),
        ensures
            coder.wf(),
            coder@ == crate::format::absorb(self@, W::bits(), S::bits()),
            self.leads_to(&coder),
    {
        let mut coder = self;
        proof {
            S::lemma_bits();
            self.lemma_in_range();
            self.lemma_leads_to_itself();
            crate::format::lemma_absorb_well_formed(self@, W::bits(), S::bits());
        }
        let threshold = crate::bit_array::pow2_u64(S::width() - W::width());
        while coder.state.to_u64() < threshold
            invariant
                self.leads_to(&coder),
                crate::rans::valid_widths(W::bits(), S::bits()),
                threshold == crate::rans::threshold(W::bits(), S::bits()),
                crate::format::absorb(coder@, W::bits(), S::bits()) == crate::format::absorb(
                    self@,
                    W::bits(),
                    S::bits(),
                ),
            ensures
                self.leads_to(&coder),
                coder@ == crate::format::absorb(self@, W::bits(), S::bits()),
            decreases coder@.bulk.len(),
        {
            let ghost middle = coder;
            let refilled = coder.try_refill_state();
            proof {
                self.lemma_leads_to_is_transitive(&middle, &coder);
            }
            if refilled.is_err() {
                break ;
            }
        }
        coder
    }

    /// The compressed representation of the coder: the bulk, followed by the words of
    /// the state that are not leading zeros, the least significant word first.
    pub fn into_compressed(self) -> (compressed: B) where B: WriteBackend<W>
        ensures
            crate::bit_array::values(compressed.stack()) == crate::format::compressed(
                self@,
                W::bits(),
            ),
            self.backend().leads_to(&compressed),
    {
        let chunks: Vec<W> = crate::bit_array::bit_array_to_chunks_truncated(self.state);
        let mut bulk = self.bulk;
        crate::backends::extend(&mut bulk, chunks.as_slice());
        bulk
    }

    /// The data that the coder was made of with [`AnsCoder::from_binary`], if the
    /// state holds a whole number of words below its most significant one bit.
    pub fn into_binary(self) -> (r: Result<B, ()>) where B: WriteBackend<W>
        ensures
            r.is_ok() == crate::format::is_sealed(self@.state, W::bits()),
            r matches Ok(data) ==> crate::bit_array::values(data.stack())
                == crate::format::binary(self@, W::bits()) && self.backend().leads_to(&data),
    {
        proof {
            W::lemma_bits();
        }
        let state = self.state.to_u64();
        if state == 0 {
            return Err(());
        }
        let width = W::width();
        let valid_bits = crate::bit_array::bit_length_u64(state) - 1;
        if valid_bits % width != 0 {
            return Err(());
        }
        proof {
            crate::bit_array::lemma_bit_length_bounds(state as nat);
        }
        let mut payload = state - crate::bit_array::pow2_u64(valid_bits);
        let count = valid_bits / width;
        let mut bulk = self.bulk;
        let ghost before = crate::bit_array::values(bulk.stack());
        let ghost all = crate::format::low_chunks(payload as nat, W::bits(), count as nat);
        let mut i: usize = 0;
        proof {
            bulk.lemma_leads_to_itself();
        }
        while i < count
            invariant
                self.bulk.leads_to(&bulk),
                width == W::bits(),
                0 < width <= 64,
                i <= count,
                crate::bit_array::values(bulk.stack()) + crate::format::low_chunks(
                    payload as nat,
                    W::bits(),
                    (count - i) as nat,
                ) == before + all,
            decreases count - i,
        {
            let word = W::from_u64_truncated(payload);
            let ghost middle = bulk;
            bulk.write(word);
            proof {
                self.bulk.lemma_leads_to_is_transitive(&middle, &bulk);
            }
            payload = crate::bit_array::shr_bits(payload, width);
            i += 1;
        }
        Ok(bulk)
    }

    /// Hands `inspect` the compressed representation of the coder, and leaves the
    /// coder as it was: the words of the state are put on the bulk for the time of
    /// the call.
    pub fn get_compressed<R, F: FnOnce(&B) -> R>(&mut self, inspect: F) -> (r: R) where
        B: ReadStackBackend<W> + WriteBackend<W>,

        requires
            forall|bulk: B|
                crate::bit_array::values(bulk.stack()) == crate::format::compressed(
                    old(self)@,
                    W::bits(),
                ) ==> call_requires(inspect, (&bulk,)),
        ensures
            old(self).leads_to(final(self)),
            final(self)@ == old(self)@,
            final(self).backend().stack() == old(self).backend().stack(),
            exists|bulk: B|
                crate::bit_array::values(bulk.stack()) == crate::format::compressed(
                    old(self)@,
                    W::bits(),
                ) && call_ensures(inspect, (&bulk,), r),
    {
        let chunks: Vec<W> = crate::bit_array::bit_array_to_chunks_truncated(self.state);
        let ghost before = self.bulk.stack();
        crate::backends::extend(&mut self.bulk, chunks.as_slice());
        proof {
            assert(crate::bit_array::values(before + chunks@) =~= crate::bit_array::values(before)
                + crate::bit_array::values(chunks@));
        }
        let r = inspect(&self.bulk);
        let mut i: usize = 0;
        while i < chunks.len()
            invariant
                i <= chunks@.len(),
                self.state == old(self).state,
                self.bulk.stack() == before + chunks@.take(chunks@.len() - i),
                old(self).leads_to(self),
            decreases chunks@.len() - i,
        {
            let ghost middle = *self;
            let _ = self.bulk.read();
            proof {
                old(self).lemma_leads_to_is_transitive(&middle, self);
            }
            i += 1;
        }
        r
    }

    /// The number of words in the compressed representation of the coder.
    pub fn num_words(&self) -> (amt: usize) where B: LookaheadBackend<W>
        requires
            self@.bulk.len() + 64 <= usize::MAX,
        ensures
            amt == crate::format::compressed(self@, W::bits()).len(),
            amt == self@.bulk.len() + crate::format::words_for_bits(
                crate::bit_array::bit_length(self@.state),
                W::bits(),
            ),
    {
        proof {
            W::lemma_bits();
            crate::format::lemma_chunks_len(self@.state, W::bits());
        }
        let width = W::width();
        let bit_length = crate::bit_array::bit_length_u64(self.state.to_u64());
        self.bulk.amt_left() + (bit_length + width - 1) / width
    }

    /// The size of the compressed representation of the coder in bits.
    pub fn num_bits(&self) -> (amt: usize) where B: LookaheadBackend<W>
        requires
            W::bits() * (self@.bulk.len() + 64) <= usize::MAX,
        ensures
            amt == W::bits() * crate::format::compressed(self@, W::bits()).len(),
    {
        proof {
            W::lemma_bits();
            S::lemma_bits();
            S::lemma_value_in_range(self.state);
            crate::rans::lemma_pow2_monotonic(S::bits(), 64);
            crate::bit_array::lemma_bit_length_le(self@.state, 64);
            assert(self@.bulk.len() + 64 <= W::bits() * (self@.bulk.len() + 64))
                by (nonlinear_arith)
                requires
                    W::bits() >= 1,
            ;
        }
        let words = self.num_words();
        proof {
            assert(W::bits() * words <= W::bits() * (self@.bulk.len() + 64)) by (nonlinear_arith)
                requires
                    words <= self@.bulk.len() + 64,
            ;
        }
        W::width() * words
    }

    /// The number of bits of compressed data on the coder: the bits of the bulk and
    /// the bits of the state below its most significant one bit.
    pub fn num_valid_bits(&self) -> (amt: usize) where B: LookaheadBackend<W>
        requires
            W::bits() * self@.bulk.len() + 64 <= usize::MAX,
        ensures
            amt == W::bits() * self@.bulk.len() + if self@.state == 0 {
                0
            } else {
                crate::format::valid_bits(self@.state)
            },
    {
        let bit_length = crate::bit_array::bit_length_u64(self.state.to_u64());
        let in_state = if bit_length > 1 {
            bit_length
        } else {
            1
        };
        W::width() * self.bulk.amt_left() + in_state - 1
    }
}

impl<W: BitArray, S: BitArray> AnsCoder<W, S, Vec<W>> {
    /// The compressed representation of the coder, as
    /// [`AnsCoder::into_compressed`] would return it.
    pub fn iter_compressed(&self) -> (compressed: Vec<W>)
        ensures
            crate::bit_array::values(compressed@) == crate::format::compressed(self@, W::bits()),
    {
        let chunks: Vec<W> = crate::bit_array::bit_array_to_chunks_truncated(self.state);
        let mut compressed: Vec<W> = Vec::new();
        crate::backends::extend(&mut compressed, self.bulk.as_slice());
        crate::backends::extend(&mut compressed, chunks.as_slice());
        compressed
    }

    /// The data that the coder was made of with [`AnsCoder::from_binary`], as
    /// [`AnsCoder::into_binary`] would return it.
    pub fn get_binary(&self) -> (r: Result<Vec<W>, ()>)
        ensures
            r.is_ok() == crate::format::is_sealed(self@.state, W::bits()),
            r matches Ok(data) ==> crate::bit_array::values(data@) == crate::format::binary(
                self@,
                W::bits(),
            ),
    {
        self.duplicate().into_binary()
    }
}

impl<'a, W: BitArray, S: BitArray> AnsCoder<W, S, ReadCursorBackward<W, &'a [W]>> {
    /// Reads a coder from its compressed representation, without copying it.
    pub fn from_compressed_slice(compressed: &'a [W]) -> (r: Result<Self, ()>)
        requires
            crate::rans::valid_widths(W::bits(), S::bits()),
        ensures
            r.is_ok() == crate::format::is_compressed(crate::bit_array::values(compressed@)),
            r matches Ok(coder) ==> coder.wf() && coder@ == crate::format::from_compressed(
                crate::bit_array::values(compressed@),
                W::bits(),
                S::bits(),
            ) && coder.backend().buf() == compressed@,
    {
        let cursor = ReadCursorBackward::new(compressed);
        assert(cursor.stack() =~= compressed@);
        match Self::from_compressed(cursor) {
            Ok(coder) => Ok(coder),
            Err(_) => Err(()),
        }
    }

    /// Reads a coder from arbitrary data, without copying it.
    pub fn from_binary_slice(data: &'a [W]) -> (coder: Self)
        requires
            crate::rans::valid_widths(W::bits(), S::bits()),
        ensures
            coder.wf(),
            coder@ == crate::format::from_binary(
                crate::bit_array::values(data@),
                W::bits(),
                S::bits(),
            ),
            coder.backend().buf() == data@,
    {
        let cursor = ReadCursorBackward::new(data);
        assert(cursor.stack() =~= data@);
        Self::from_binary(cursor)
    }
}

impl<W: BitArray, S: BitArray, Buf: WordBuffer<W>> AnsCoder<W, S, ReadCursorForward<W, Buf>> {
    /// Reads a coder from its compressed representation, stored last word first.
    pub fn from_reversed_compressed(compressed: Buf) -> (r: Result<Self, ()>)
        requires
            crate::rans::valid_widths(W::bits(), S::bits()),
        ensures
            r.is_ok() == crate::format::is_compressed(
                crate::bit_array::values(compressed.words().reverse()),
            ),
            r matches Ok(coder) ==> coder.wf() && coder@ == crate::format::from_compressed(
                crate::bit_array::values(compressed.words().reverse()),
                W::bits(),
                S::bits(),
            ) && coder.backend().buf() == compressed.words(),
    {
        let cursor = ReadCursorForward::new(compressed);
        assert(cursor.buf().skip(0) =~= cursor.buf());
        match Self::from_compressed(cursor) {
            Ok(coder) => Ok(coder),
            Err(_) => Err(()),
        }
    }

    /// Reads a coder from arbitrary data, stored last word first.
    pub fn from_reversed_binary(data: Buf) -> (coder: Self)
        requires
            crate::rans::valid_widths(W::bits(), S::bits()),
        ensures
            coder.wf(),
            coder@ == crate::format::from_binary(
                crate::bit_array::values(data.words().reverse()),
                W::bits(),
                S::bits(),
            ),
            coder.backend().buf() == data.words(),
    {
        let cursor = ReadCursorForward::new(data);
        assert(cursor.buf().skip(0) =~= cursor.buf());
        Self::from_binary(cursor)
    }
}

impl<W: BitArray, S: BitArray> AnsCoder<W, S, ReadFromIterBackend<W>> {
    /// Reads a coder from its compressed representation, which `compressed` yields
    /// last word first.
    pub fn from_reversed_compressed_iter<I: Iterator<Item = W>>(compressed: I) -> (r: Result<
        Self,
        (),
    >)
        requires
            crate::rans::valid_widths(W::bits(), S::bits()),
            vstd::std_specs::iter::IteratorSpec::obeys_prophetic_iter_laws(&compressed),
            vstd::std_specs::iter::IteratorSpec::decrease(&compressed).is_some(),
        ensures
            r.is_ok() == crate::format::is_compressed(
                crate::bit_array::values(
                    vstd::std_specs::iter::IteratorSpec::remaining(&compressed).reverse(),
                ),
            ),
            r matches Ok(coder) ==> coder.wf() && coder@ == crate::format::from_compressed(
                crate::bit_array::values(
                    vstd::std_specs::iter::IteratorSpec::remaining(&compressed).reverse(),
                ),
                W::bits(),
                S::bits(),
            ),
    {
        match Self::from_compressed(ReadFromIterBackend::new(compressed)) {
            Ok(coder) => Ok(coder),
            Err(_) => Err(()),
        }
    }

    /// Reads a coder from arbitrary data, which `data` yields last word first.
    pub fn from_reversed_binary_iter<I: Iterator<Item = W>>(data: I) -> (coder: Self)
        requires
            crate::rans::valid_widths(W::bits(), S::bits()),
            vstd::std_specs::iter::IteratorSpec::obeys_prophetic_iter_laws(&data),
            vstd::std_specs::iter::IteratorSpec::decrease(&data).is_some(),
        ensures
            coder.wf(),
            coder@ == crate::format::from_binary(
                crate::bit_array::values(
                    vstd::std_specs::iter::IteratorSpec::remaining(&data).reverse(),
                ),
                W::bits(),
                S::bits(),
            ),
    {
        Self::from_binary(ReadFromIterBackend::new(data))
    }
}

} // verus!
