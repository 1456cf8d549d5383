//! Encoding and decoding on a stack: what is encoded last is decoded first.
use vstd::arithmetic::power2::*;
use vstd::prelude::*;

use crate::backends::{Backend, LookaheadBackend, MutBackend};
use crate::bit_array::BitArray;
use crate::rans::AnsState;

pub mod batch;
pub mod coding;
pub mod export;
pub mod seek;

verus! {

/// An entropy coder that encodes onto and decodes from a stack of compressed words.
///
/// `W` is the type of the compressed words and `S` the type of the state; a state
/// holds at least two words. The compressed words that do not fit into the state
/// are kept in the backend.
#[derive(Debug)]
pub struct AnsCoder<W, S, B = Vec<W>> where W: BitArray, S: BitArray {
    bulk: B,
    state: S,
    phantom: core::marker::PhantomData<W>,
}

impl<W: BitArray, S: BitArray, B: Clone> Clone for AnsCoder<W, S, B> {
    fn clone(&self) -> (coder: Self) {
        AnsCoder {
            bulk: self.bulk.clone(),
            state: self.state,
            phantom: core::marker::PhantomData,
        }
    }
}

/// An [`AnsCoder`] with words of 32 bits and a state of 64 bits.
pub type DefaultAnsCoder<B = Vec<u32>> = AnsCoder<u32, u64, B>;

/// An [`AnsCoder`] with words of 16 bits and a state of 32 bits.
pub type SmallAnsCoder = AnsCoder<u16, u32>;

impl<W: BitArray, S: BitArray, B: Backend<W>> AnsCoder<W, S, B> {
    /// The bulk and the state of the coder as numbers.
    pub closed spec fn view(&self) -> AnsState {
        AnsState { bulk: crate::bit_array::values(self.bulk.stack()), state: self.state.value() }
    }

    /// A state holds at least two words, and the coder meets the invariant on its
    /// state: the state reaches `2^(bits(S) - bits(W))` unless the bulk is empty.
    pub open spec fn wf(&self) -> bool {
        &&& crate::rans::valid_widths(W::bits(), S::bits())
        &&& crate::rans::well_formed(self@, W::bits(), S::bits())
    }

    /// The backend with the compressed words that are not in the state.
    pub closed spec fn backend(&self) -> B {
        self.bulk
    }

    /// The state of the coder.
    pub closed spec fn spec_state(&self) -> S {
        self.state
    }

    /// Whether `later` may be what the operations of the coder make of `self`: the
    /// backend of `self` leads to the backend of `later`.
    pub open spec fn leads_to(&self, later: &Self) -> bool {
        self.backend().leads_to(&later.backend())
    }

    /// The words and the state of a coder never leave the ranges of their types.
    pub proof fn lemma_in_range(&self)
        ensures
            crate::rans::in_range(self@, W::bits(), S::bits()),
    {
        S::lemma_value_in_range(self.state);
        crate::bit_array::lemma_values_in_range(self.bulk.stack());
    }

    /// The view of a coder is made of the stack of its backend and of its state.
    pub proof fn lemma_view(&self)
        ensures
            self@.bulk == crate::bit_array::values(self.backend().stack()),
            self@.state == self.state().value(),
    {
    }

    /// Coders with the same view hold the same words and the same state.
    pub proof fn law_view_is_injective(&self, other: &Self)
        requires
            self@ == other@,
        ensures
            self.backend().stack() == other.backend().stack(),
            self.state() == other.state(),
    {
        crate::bit_array::lemma_values_is_injective(self.bulk.stack(), other.bulk.stack());
        S::lemma_value_is_injective(self.state, other.state);
    }

    /// A coder leads to itself.
    pub proof fn lemma_leads_to_itself(&self)
        ensures
            self.leads_to(self),
    {
        self.bulk.lemma_leads_to_itself();
    }

    /// Where a coder leads by way of another one, it leads.
    pub proof fn lemma_leads_to_is_transitive(&self, middle: &Self, later: &Self)
        requires
            self.leads_to(middle),
            middle.leads_to(later),
        ensures
            self.leads_to(later),
    {
        self.bulk.lemma_leads_to_is_transitive(&middle.bulk, &later.bulk);
    }

    /// A coder with the given state and the given bulk, if the state reaches the
    /// threshold or the bulk is empty.
    pub fn from_raw_parts(bulk: B, state: S) -> (r: Result<Self, ()>) where
        B: LookaheadBackend<W>,

        requires
            crate::rans::valid_widths(W::bits(), S::bits()),
        ensures
            r.is_ok() == (bulk.stack().len() == 0 || state.value() >= crate::rans::threshold(
                W::bits(),
                S::bits(),
            )),
            r matches Ok(coder) ==> coder.wf() && coder.backend() == bulk && coder.state() == state
                && coder@ == (AnsState {
                bulk: crate::bit_array::values(bulk.stack()),
                state: state.value(),
            }),
    {
        proof {
            S::lemma_bits();
        }
        if bulk.is_empty() || state.to_u64() >= crate::bit_array::pow2_u64(
            S::width() - W::width(),
        ) {
            let coder = AnsCoder { bulk, state, phantom: core::marker::PhantomData };
            proof {
                coder.lemma_in_range();
            }
            Ok(coder)
        } else {
            Err(())
        }
    }

    /// The backend with the compressed words that are not in the state.
    pub fn bulk(&self) -> (bulk: &B)
        ensures
            *bulk == self.backend(),
            crate::bit_array::values(bulk.stack()) == self@.bulk,
    {
        &self.bulk
    }

    /// The state of the coder.
    #[verifier::when_used_as_spec(spec_state)]
    pub fn state(&self) -> (state: S)
        ensures
            state == self.spec_state(),
            state.value() == self@.state,
    {
        self.state
    }

    /// The backend and the state of the coder.
    pub fn into_raw_parts(self) -> (parts: (B, S))
        ensures
            parts.0 == self.backend(),
            parts.1 == self.state(),
            crate::bit_array::values(parts.0.stack()) == self@.bulk,
            parts.1.value() == self@.state,
    {
        (self.bulk, self.state)
    }

    /// Whether the coder holds no data. For a well-formed coder, an empty state
    /// implies an empty bulk.
    pub fn is_empty(&self) -> (empty: bool)
        ensures
            empty == (self@.state == 0),
            self.wf() && empty ==> self@ == crate::rans::empty(),
    {
        proof {
            lemma_pow2_pos((S::bits() - W::bits()) as nat);
            if self.wf() && self.state.value() == 0 {
                assert(self@.bulk =~= Seq::<nat>::empty());
            }
        }
        self.state.to_u64() == 0
    }

    /// Whether the coder may hold no data: the same as [`AnsCoder::is_empty`].
    pub fn maybe_empty(&self) -> (empty: bool)
        ensures
            empty == (self@.state == 0),
    {
        self.is_empty()
    }

    /// Discards all compressed data.
    pub fn clear(&mut self) where B: MutBackend<W>
        ensures
            old(self).leads_to(final(self)),
            final(self)@ == crate::rans::empty(),
            crate::rans::valid_widths(W::bits(), S::bits()) ==> final(self).wf(),
    {
        self.bulk.clear();
        self.state = crate::bit_array::zero();
        proof {
            assert(self@.bulk =~= Seq::<nat>::empty());
            lemma_pow2_pos(S::bits());
        }
    }
}

impl<W: BitArray, S: BitArray> Default for AnsCoder<W, S, Vec<W>> {
    /// A coder without data.
    fn default() -> (coder: Self)
        ensures
            coder@ == crate::rans::empty(),
            crate::rans::valid_widths(W::bits(), S::bits()) ==> coder.wf(),
    {
        Self::new()
    }
}

impl<W: BitArray, S: BitArray> AnsCoder<W, S, Vec<W>> {
    /// A coder without data.
    pub fn new() -> (coder: Self)
        ensures
            coder@ == crate::rans::empty(),
            crate::rans::valid_widths(W::bits(), S::bits()) ==> coder.wf(),
    {
        Self::with_state_and_empty_bulk(crate::bit_array::zero())
    }

    /// A coder with the given state and an empty bulk.
    pub fn with_state_and_empty_bulk(state: S) -> (coder: Self)
        ensures
            coder@ == (AnsState { bulk: Seq::empty(), state: state.value() }),
            coder.state() == state,
            crate::rans::valid_widths(W::bits(), S::bits()) ==> coder.wf(),
    {
        let coder = AnsCoder { bulk: Vec::new(), state, phantom: core::marker::PhantomData };
        proof {
            assert(coder@.bulk =~= Seq::<nat>::empty());
            S::lemma_value_in_range(state);
        }
        coder
    }

    /// A coder that holds what this coder holds.
    pub fn duplicate(&self) -> (coder: Self)
        ensures
            coder@ == self@,
            coder.state() == self.state(),
            coder.backend()@ == self.backend()@,
            coder.wf() == self.wf(),
    {
        let mut bulk: Vec<W> = Vec::new();
        crate::backends::extend(&mut bulk, self.bulk.as_slice());
        AnsCoder { bulk, state: self.state, phantom: core::marker::PhantomData }
    }
}

} // verus!
