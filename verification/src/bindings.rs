//! The coder as language bindings hand it out.
//!
//! The types are fixed: words of 32 bits, a state of 64 bits, symbols that are
//! `i32`, and probabilities with 24 bits of precision. All arguments and results
//! are plain values; what a binding has to do is to turn the values of its language
//! into these.
use vstd::arithmetic::power2::*;
use vstd::prelude::*;

use crate::models::{DecoderModel, EncoderModel};
use crate::rans::AnsState;
use crate::stack::batch::Batch;
use crate::stack::DefaultAnsCoder;

verus! {

/// The precision of the probabilities of all models.
pub const PRECISION: usize = 24;

/// Why a coder could not be made.
#[derive(Debug, PartialEq, Eq)]
pub enum ConstructionError {
    /// There is a request to seal, but no data to seal.
    NeedCompressedDataToSeal,
    /// The compressed data ends in a zero word.
    InvalidCompressedData,
}

/// Why symbols could not be encoded.
#[derive(Debug, PartialEq, Eq)]
pub enum EncodeError {
    /// There is not one model for each symbol.
    WrongLength,
    /// A model gives its symbol the probability zero.
    ImpossibleSymbol,
}

/// The models that symbols are encoded with.
pub enum Models<'a, D> {
    /// One model for all symbols.
    Concrete(&'a D),
    /// A model for each symbol.
    PerSymbol(&'a [D]),
}

/// What to decode.
pub enum Decoding<'a, D> {
    /// One symbol.
    One(&'a D),
    /// A number of symbols with one model for all.
    Iid(&'a D, usize),
    /// One symbol with each of the models.
    PerSymbol(&'a [D]),
}

impl<'a, D> Models<'a, D> {
    /// Whether there is a model for each of the symbols.
    pub open spec fn fit(self, symbols: Seq<i32>) -> bool {
        match self {
            Models::Concrete(_) => true,
            Models::PerSymbol(each) => each@.len() == symbols.len(),
        }
    }

    /// Each symbol with its model.
    pub open spec fn with(self, symbols: Seq<i32>) -> Seq<(i32, D)> {
        match self {
            Models::Concrete(model) => crate::symbols::with_model(symbols, *model),
            Models::PerSymbol(each) => crate::symbols::with_models(symbols, each@),
        }
    }
}

impl<'a, D> Decoding<'a, D> {
    /// The number of symbols to decode.
    pub open spec fn amt(self) -> nat {
        match self {
            Decoding::One(_) => 1,
            Decoding::Iid(_, amt) => amt as nat,
            Decoding::PerSymbol(models) => models@.len(),
        }
    }

    /// The model of each symbol to decode, the first one first.
    pub open spec fn models(self) -> Seq<D> {
        match self {
            Decoding::One(model) => crate::symbols::repeated(*model, 1),
            Decoding::Iid(model, amt) => crate::symbols::repeated(*model, amt as nat),
            Decoding::PerSymbol(models) => models@,
        }
    }
}

/// An entropy coder on a stack of words of 32 bits.
pub struct AnsCoder {
    inner: DefaultAnsCoder,
}

impl AnsCoder {
    /// The bulk and the state of the coder as numbers.
    pub closed spec fn view(&self) -> AnsState {
        self.inner@
    }

    /// The coder meets the invariant on its state: the state reaches `2^32` unless
    /// the bulk is empty. Every coder does.
    pub open spec fn wf(&self) -> bool {
        crate::rans::well_formed(self@, 32, 64)
    }

    #[verifier::type_invariant]
    spec fn inner_is_well_formed(self) -> bool {
        self.inner.wf()
    }

    /// Takes the coder out, to work on it, and leaves an empty one in its place.
    fn take(&mut self) -> (inner: DefaultAnsCoder)
        ensures
            inner.wf(),
            inner@ == old(self)@,
            final(self)@ == crate::rans::empty(),
    {
        proof {
            use_type_invariant(&*self);
        }
        let mut inner = DefaultAnsCoder::new();
        core::mem::swap(&mut self.inner, &mut inner);
        inner
    }

    /// Puts the coder back after the work on it.
    fn put_back(&mut self, inner: DefaultAnsCoder)
        requires
            inner.wf(),
        ensures
            final(self)@ == inner@,
    {
        let mut inner = inner;
        core::mem::swap(&mut self.inner, &mut inner);
    }

    /// A coder without data, if there is no argument; the coder with the compressed
    /// representation `compressed`; or, with `seal`, the coder that holds the
    /// arbitrary data `compressed`.
    pub fn new(compressed: Option<Vec<u32>>, seal: Option<bool>) -> (r: Result<
        Self,
        ConstructionError,
    >)
        ensures
            r matches Ok(coder) ==> coder.wf(),
            match compressed {
                None => if seal.is_some() {
                    r == Err::<Self, ConstructionError>(ConstructionError::NeedCompressedDataToSeal)
                } else {
                    r.is_ok() && r.unwrap()@ == crate::rans::empty()
                },
                Some(data) => if seal == Some(true) {
                    r.is_ok() && r.unwrap()@ == crate::format::from_binary(
                        crate::bit_array::values(data@),
                        32,
                        64,
                    )
                } else if crate::format::is_compressed(crate::bit_array::values(data@)) {
                    r.is_ok() && r.unwrap()@ == crate::format::from_compressed(
                        crate::bit_array::values(data@),
                        32,
                        64,
                    )
                } else {
                    r == Err::<Self, ConstructionError>(ConstructionError::InvalidCompressedData)
                },
            },
    {
        if compressed.is_none() && seal.is_some() {
            return Err(ConstructionError::NeedCompressedDataToSeal);
        }
        let inner = match compressed {
            Some(data) => {
                if seal == Some(true) {
                    DefaultAnsCoder::from_binary(data)
                } else {
                    match DefaultAnsCoder::from_compressed(data) {
                        Ok(inner) => inner,
                        Err(_) => {
                            return Err(ConstructionError::InvalidCompressedData);
                        },
                    }
                }
            },
            None => DefaultAnsCoder::new(),
        };
        Ok(AnsCoder { inner })
    }

    /// A snapshot of the coder: the number of words on the bulk, and the state.
    pub fn pos(&self) -> (snapshot: (usize, u64))
        ensures
            self.wf(),
            snapshot.0 == self@.bulk.len(),
            snapshot.1 == self@.state,
    {
        proof {
            use_type_invariant(self);
            self.inner.lemma_view();
        }
        self.inner.pos_and_state()
    }

    /// Moves the coder to a snapshot by dropping the words above `position`. A
    /// state below `2^32` is only taken with an empty bulk, a state that reaches
    /// `2^32` only with words on the bulk. Fails, and leaves the coder as it is, if
    /// the bulk has less than `position` words.
    pub fn seek(&mut self, position: usize, state: u64) -> (r: Result<(), ()>)
        ensures
            final(self).wf(),
            r.is_ok() == (position <= old(self)@.bulk.len() && (state < pow2(32)) == (position
                == 0)),
            r.is_ok() ==> final(self)@ == (AnsState {
                bulk: old(self)@.bulk.take(position as int),
                state: state as nat,
            }),
            r.is_err() ==> final(self)@ == old(self)@,
    {
        let mut inner = self.take();
        proof {
            inner.lemma_view();
            if position <= inner.backend()@.len() {
                assert(crate::bit_array::values::<u32>(inner.backend()@.take(position as int))
                    =~= crate::bit_array::values::<u32>(inner.backend()@).take(position as int));
            }
        }
        let r = inner.seek((position, state));
        self.put_back(inner);
        r
    }

    /// Discards all compressed data.
    pub fn clear(&mut self)
        ensures
            final(self).wf(),
            final(self)@ == crate::rans::empty(),
    {
        let mut inner = self.take();
        inner.clear();
        self.put_back(inner);
    }

    /// The number of words in the compressed representation of the coder.
    pub fn num_words(&self) -> (amt: usize)
        requires
            self@.bulk.len() + 64 <= usize::MAX,
        ensures
            amt == crate::format::compressed(self@, 32).len(),
    {
        self.inner.num_words()
    }

    /// The size of the compressed representation of the coder in bits.
    pub fn num_bits(&self) -> (amt: usize)
        requires
            32 * (self@.bulk.len() + 64) <= usize::MAX,
        ensures
            amt == 32 * crate::format::compressed(self@, 32).len(),
    {
        self.inner.num_bits()
    }

    /// The number of bits of compressed data on the coder.
    pub fn num_valid_bits(&self) -> (amt: usize)
        requires
            32 * self@.bulk.len() + 64 <= usize::MAX,
        ensures
            amt == 32 * self@.bulk.len() + if self@.state == 0 {
                0
            } else {
                crate::format::valid_bits(self@.state)
            },
    {
        self.inner.num_valid_bits()
    }

    /// Whether the coder holds no data.
    pub fn is_empty(&self) -> (empty: bool)
        ensures
            empty == (self@.state == 0),
    {
        self.inner.is_empty()
    }

    /// A copy of the compressed representation of the coder; or, with `unseal`, of
    /// the data that a coder made with `seal` holds. The latter fails unless the
    /// state holds a whole number of words below its most significant one bit.
    pub fn get_compressed(&mut self, unseal: Option<bool>) -> (r: Result<Vec<u32>, ()>)
        ensures
            final(self)@ == old(self)@,
            final(self).wf(),
            if unseal == Some(true) {
                r.is_ok() == crate::format::is_sealed(old(self)@.state, 32) && (r matches Ok(
                    data,
                ) ==> crate::bit_array::values(data@) == crate::format::binary(old(self)@, 32))
            } else {
                r.is_ok() && crate::bit_array::values(r.unwrap()@) == crate::format::compressed(
                    old(self)@,
                    32,
                )
            },
    {
        proof {
            use_type_invariant(&*self);
        }
        if unseal == Some(true) {
            self.inner.get_binary()
        } else {
            Ok(self.inner.iter_compressed())
        }
    }

    /// Encodes the symbols, the last one first, so that they are decoded the first
    /// one first. Where there is a model for each symbol, symbol `i` goes with model
    /// `i`, and there have to be as many models as symbols: else nothing is
    /// encoded. Stops at the first symbol that its model refuses; the symbols after
    /// it stay encoded.
    pub fn encode_reverse<D>(&mut self, symbols: &[i32], models: Models<'_, D>) -> (r: Result<
        (),
        EncodeError,
    >) where D: EncoderModel<u32, 24, Symbol = i32>
        ensures
            final(self).wf(),
            (r == Err::<(), EncodeError>(EncodeError::WrongLength)) == !models.fit(symbols@),
            !models.fit(symbols@) ==> final(self)@ == old(self)@,
            models.fit(symbols@) ==> crate::symbols::encodes::<u32, D, 24>(
                old(self)@,
                final(self)@,
                64,
                models.with(symbols@).reverse(),
                r.is_ok(),
            ),
            r.is_ok() ==> crate::rans::encoded(
                old(self)@,
                final(self)@,
                32,
                64,
                24,
                symbols@.len(),
            ),
            r == Err::<(), EncodeError>(EncodeError::ImpossibleSymbol) ==> exists|count: nat|
                count < symbols@.len() && #[trigger] crate::rans::encoded(
                    old(self)@,
                    final(self)@,
                    32,
                    64,
                    24,
                    count,
                ),
    {
        let mut inner = self.take();
        let r = match models {
            Models::Concrete(model) => inner.encode_batch::<D, 24>(
                Batch::Iid(symbols, model),
                true,
            ),
            Models::PerSymbol(each) => {
                if symbols.len() != each.len() {
                    self.put_back(inner);
                    return Err(EncodeError::WrongLength);
                }
                inner.encode_batch::<D, 24>(Batch::Each(symbols, each), true)
            },
        };
        self.put_back(inner);
        match r {
            Ok(()) => Ok(()),
            Err(_) => Err(EncodeError::ImpossibleSymbol),
        }
    }

    /// Decodes symbols and returns them, the one that was decoded first first.
    /// Where there is a model for each symbol, symbol `i` is decoded with model `i`.
    pub fn decode<D>(&mut self, decoding: Decoding<'_, D>) -> (symbols: Vec<i32>) where
        D: DecoderModel<u32, 24, Symbol = i32>,

        ensures
            final(self).wf(),
            symbols@.len() == decoding.amt(),
            crate::symbols::gave::<u32, D, 24>(
                old(self)@,
                final(self)@,
                64,
                decoding.models(),
                symbols@,
            ),
            crate::rans::decoded(old(self)@, final(self)@, 32, 64, 24, decoding.amt()),
    {
        let mut inner = self.take();
        let symbols = match decoding {
            Decoding::One(model) => inner.decode_iid_symbols::<D, 24>(1, model),
            Decoding::Iid(model, amt) => inner.decode_iid_symbols::<D, 24>(amt, model),
            Decoding::PerSymbol(models) => inner.decode_symbols::<D, 24>(models),
        };
        self.put_back(inner);
        symbols
    }

    /// A coder that holds what this coder holds.
    pub fn clone(&self) -> (coder: Self)
        ensures
            coder@ == self@,
            coder.wf(),
    {
        proof {
            use_type_invariant(self);
        }
        AnsCoder { inner: self.inner.duplicate() }
    }
}

} // verus!
