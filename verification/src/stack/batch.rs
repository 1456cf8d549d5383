//! Encoding and decoding of many symbols at once.
use vstd::prelude::*;

use crate::backends::{Backend, ReadStackBackend, WriteBackend};
use crate::bit_array::BitArray;
use crate::models::{DecoderModel, EncoderModel};
use crate::rans::AnsState;
use crate::stack::AnsCoder;
use crate::{EncodingError, TryCodingError};

verus! {

/// Whether `r` is what comes of encoding `entries`, the first one first, when
/// `count` of them were encoded: success, if these are all; else the error in
/// place of the next symbol and its model, or the failure to encode the next
/// symbol. The entries before it are symbols with their models.
pub open spec fn stops_after<T, E>(
    r: Result<(), TryCodingError<EncodingError, E>>,
    entries: Seq<Result<T, E>>,
    count: nat,
) -> bool {
    &&& count <= entries.len()
    &&& forall|i: int| 0 <= i < count ==> (#[trigger] entries[i]).is_ok()
    &&& match r {
        Ok(_) => count == entries.len(),
        Err(TryCodingError::InvalidEntropyModel(error)) => count < entries.len()
            && entries[count as int] == Err::<T, E>(error),
        Err(TryCodingError::CodingError(error)) => count < entries.len()
            && entries[count as int].is_ok() && error == EncodingError::ImpossibleSymbol,
    }
}

/// Whether `after` and `r` are what comes of encoding `entries`, the first one
/// first, when `count` of them were encoded: these are symbols with their models
/// and were encoded in this order, and `r` tells why the next one was not.
pub open spec fn tries<W: BitArray, D: EncoderModel<W, PRECISION>, E, const PRECISION: usize>(
    before: AnsState,
    after: AnsState,
    s: nat,
    entries: Seq<Result<(D::Symbol, D), E>>,
    r: Result<(), TryCodingError<EncodingError, E>>,
    count: nat,
) -> bool {
    &&& stops_after(r, entries, count)
    &&& crate::symbols::took::<W, D, PRECISION>(
        before,
        after,
        s,
        crate::symbols::pairs_of(entries, count),
    )
    &&& r matches Err(TryCodingError::CodingError(_)) ==> crate::symbols::refuses::<
        W,
        D,
        PRECISION,
    >(entries[count as int]->Ok_0)
}

/// The entries of `entries` in reverse order.
fn reversed<T>(entries: Vec<T>) -> (reversed: Vec<T>)
    ensures
        reversed@ == entries@.reverse(),
{
    let mut rest = entries;
    let mut reversed: Vec<T> = Vec::new();
    loop
        invariant
            rest@.len() + reversed@.len() == entries@.len(),
            rest@ == entries@.take(rest@.len() as int),
            forall|i: int|
                0 <= i < reversed@.len() ==> reversed@[i] == entries@[entries@.len() - 1 - i],
        ensures
            reversed@ == entries@.reverse(),
        decreases rest@.len(),
    {
        match rest.pop() {
            Some(entry) => {
                reversed.push(entry);
            },
            None => {
                break ;
            },
        }
    }
    reversed
}

/// Where the symbols of a batch and their models are.
pub(crate) enum Batch<'a, Symbol, D> {
    /// Each symbol beside its model.
    Pairs(&'a [(Symbol, D)]),
    /// One model for all symbols.
    Iid(&'a [Symbol], &'a D),
    /// The models apart from the symbols, one for each.
    Each(&'a [Symbol], &'a [D]),
}

impl<'a, Symbol, D> Batch<'a, Symbol, D> {
    /// There is a model for each symbol.
    pub(crate) open spec fn wf(self) -> bool {
        match self {
            Batch::Each(symbols, models) => symbols@.len() == models@.len(),
            _ => true,
        }
    }

    /// Each symbol with its model.
    pub(crate) open spec fn pairs(self) -> Seq<(Symbol, D)> {
        match self {
            Batch::Pairs(pairs) => pairs@,
            Batch::Iid(symbols, model) => crate::symbols::with_model(symbols@, *model),
            Batch::Each(symbols, models) => crate::symbols::with_models(symbols@, models@),
        }
    }

    /// The pairs in the order in which they are encoded.
    pub(crate) open spec fn in_order(self, reverse: bool) -> Seq<(Symbol, D)> {
        if reverse {
            self.pairs().reverse()
        } else {
            self.pairs()
        }
    }

    /// The number of symbols.
    fn len(&self) -> (len: usize)
        ensures
            len == self.pairs().len(),
    {
        match self {
            Batch::Pairs(pairs) => pairs.len(),
            Batch::Iid(symbols, _) => symbols.len(),
            Batch::Each(symbols, _) => symbols.len(),
        }
    }

    /// The symbol at `index`.
    fn symbol(&self, index: usize) -> (symbol: &Symbol)
        requires
            index < self.pairs().len(),
        ensures
            *symbol == self.pairs()[index as int].0,
    {
        match self {
            Batch::Pairs(pairs) => &pairs[index].0,
            Batch::Iid(symbols, _) => &symbols[index],
            Batch::Each(symbols, _) => &symbols[index],
        }
    }

    /// The model of the symbol at `index`.
    fn model(&self, index: usize) -> (model: &D)
        requires
            self.wf(),
            index < self.pairs().len(),
        ensures
            *model == self.pairs()[index as int].1,
    {
        match self {
            Batch::Pairs(pairs) => &pairs[index].1,
            Batch::Iid(_, model) => model,
            Batch::Each(_, models) => &models[index],
        }
    }
}

/// The models that a batch of symbols is decoded with.
enum Decoders<'a, D> {
    /// One model for each symbol.
    Each(&'a [D]),
    /// One model for a number of symbols.
    Repeated(&'a D, usize),
}

impl<'a, D> Decoders<'a, D> {
    /// The model of each symbol, the first one first.
    spec fn models(self) -> Seq<D> {
        match self {
            Decoders::Each(models) => models@,
            Decoders::Repeated(model, amt) => crate::symbols::repeated(*model, amt as nat),
        }
    }

    /// The number of symbols.
    fn len(&self) -> (len: usize)
        ensures
            len == self.models().len(),
    {
        match self {
            Decoders::Each(models) => models.len(),
            Decoders::Repeated(_, amt) => *amt,
        }
    }

    /// The model of the symbol at `index`.
    fn model(&self, index: usize) -> (model: &D)
        requires
            index < self.models().len(),
        ensures
            *model == self.models()[index as int],
    {
        match self {
            Decoders::Each(models) => &models[index],
            Decoders::Repeated(model, _) => model,
        }
    }
}

impl<W: BitArray, S: BitArray, B: Backend<W>> AnsCoder<W, S, B> {
    /// Encodes the symbols with their models, the first one first. They will be
    /// decoded last one first. Stops at the first symbol that its model refuses; the
    /// symbols before it stay encoded.
    pub fn encode_symbols<D, const PRECISION: usize>(
        &mut self,
        symbols_and_models: &[(D::Symbol, D)],
    ) -> (r: Result<(), EncodingError>) where B: WriteBackend<W>, D: EncoderModel<W, PRECISION>
        requires
            old(self).wf(),
            crate::rans::valid_precision(W::bits(), PRECISION as nat),
        ensures
            old(self).leads_to(final(self)),
            final(self).wf(),
            r.is_err() ==> r == Err::<(), EncodingError>(EncodingError::ImpossibleSymbol),
            crate::symbols::encodes::<W, D, PRECISION>(
                old(self)@,
                final(self)@,
                S::bits(),
                symbols_and_models@,
                r.is_ok(),
            ),
            r.is_ok() ==> crate::rans::encoded(
                old(self)@,
                final(self)@,
                W::bits(),
                S::bits(),
                PRECISION as nat,
                symbols_and_models@.len(),
            ),
            r.is_err() ==> exists|count: nat|
                count < symbols_and_models@.len() && #[trigger] crate::rans::encoded(
                    old(self)@,
                    final(self)@,
                    W::bits(),
                    S::bits(),
                    PRECISION as nat,
                    count,
                ),
    {
        self.encode_batch::<D, PRECISION>(Batch::Pairs(symbols_and_models), false)
    }

    /// Encodes the symbols with their models, the last one first. They will be
    /// decoded first one first. Stops at the first symbol that its model refuses;
    /// the symbols after it stay encoded.
    pub fn encode_symbols_reverse<D, const PRECISION: usize>(
        &mut self,
        symbols_and_models: &[(D::Symbol, D)],
    ) -> (r: Result<(), EncodingError>) where B: WriteBackend<W>, D: EncoderModel<W, PRECISION>
        requires
            old(self).wf(),
            crate::rans::valid_precision(W::bits(), PRECISION as nat),
        ensures
            old(self).leads_to(final(self)),
            final(self).wf(),
            r.is_err() ==> r == Err::<(), EncodingError>(EncodingError::ImpossibleSymbol),
            crate::symbols::encodes::<W, D, PRECISION>(
                old(self)@,
                final(self)@,
                S::bits(),
                symbols_and_models@.reverse(),
                r.is_ok(),
            ),
            r.is_ok() ==> crate::rans::encoded(
                old(self)@,
                final(self)@,
                W::bits(),
                S::bits(),
                PRECISION as nat,
                symbols_and_models@.len(),
            ),
            r.is_err() ==> exists|count: nat|
                count < symbols_and_models@.len() && #[trigger] crate::rans::encoded(
                    old(self)@,
                    final(self)@,
                    W::bits(),
                    S::bits(),
                    PRECISION as nat,
                    count,
                ),
    {
        self.encode_batch::<D, PRECISION>(Batch::Pairs(symbols_and_models), true)
    }

    /// Encodes the symbols with one model for all, the first one first. Stops at the
    /// first symbol that the model refuses; the symbols before it stay encoded.
    pub fn encode_iid_symbols<D, const PRECISION: usize>(
        &mut self,
        symbols: &[D::Symbol],
        model: &D,
    ) -> (r: Result<(), EncodingError>) where B: WriteBackend<W>, D: EncoderModel<W, PRECISION>
        requires
            old(self).wf(),
            crate::rans::valid_precision(W::bits(), PRECISION as nat),
        ensures
            old(self).leads_to(final(self)),
            final(self).wf(),
            r.is_err() ==> r == Err::<(), EncodingError>(EncodingError::ImpossibleSymbol),
            crate::symbols::encodes::<W, D, PRECISION>(
                old(self)@,
                final(self)@,
                S::bits(),
                crate::symbols::with_model(symbols@, *model),
                r.is_ok(),
            ),
            r.is_ok() ==> crate::rans::encoded(
                old(self)@,
                final(self)@,
                W::bits(),
                S::bits(),
                PRECISION as nat,
                symbols@.len(),
            ),
            r.is_err() ==> exists|count: nat|
                count < symbols@.len() && #[trigger] crate::rans::encoded(
                    old(self)@,
                    final(self)@,
                    W::bits(),
                    S::bits(),
                    PRECISION as nat,
                    count,
                ),
    {
        self.encode_batch::<D, PRECISION>(Batch::Iid(symbols, model), false)
    }

    /// Encodes the symbols with one model for all, the last one first. They will be
    /// decoded first one first. Stops at the first symbol that the model refuses;
    /// the symbols after it stay encoded.
    pub fn encode_iid_symbols_reverse<D, const PRECISION: usize>(
        &mut self,
        symbols: &[D::Symbol],
        model: &D,
    ) -> (r: Result<(), EncodingError>) where B: WriteBackend<W>, D: EncoderModel<W, PRECISION>
        requires
            old(self).wf(),
            crate::rans::valid_precision(W::bits(), PRECISION as nat),
        ensures
            old(self).leads_to(final(self)),
            final(self).wf(),
            r.is_err() ==> r == Err::<(), EncodingError>(EncodingError::ImpossibleSymbol),
            crate::symbols::encodes::<W, D, PRECISION>(
                old(self)@,
                final(self)@,
                S::bits(),
                crate::symbols::with_model(symbols@, *model).reverse(),
                r.is_ok(),
            ),
            r.is_ok() ==> crate::rans::encoded(
                old(self)@,
                final(self)@,
                W::bits(),
                S::bits(),
                PRECISION as nat,
                symbols@.len(),
            ),
            r.is_err() ==> exists|count: nat|
                count < symbols@.len() && #[trigger] crate::rans::encoded(
                    old(self)@,
                    final(self)@,
                    W::bits(),
                    S::bits(),
                    PRECISION as nat,
                    count,
                ),
    {
        self.encode_batch::<D, PRECISION>(Batch::Iid(symbols, model), true)
    }

    /// Encodes the symbols of `batch` with their models, the first one first, or the
    /// last one first if `reverse`. Stops at the first symbol that its model
    /// refuses; what was encoded before stays encoded.
    pub(crate) fn encode_batch<D, const PRECISION: usize>(
        &mut self,
        batch: Batch<'_, D::Symbol, D>,
        reverse: bool,
    ) -> (r: Result<(), EncodingError>) where B: WriteBackend<W>, D: EncoderModel<W, PRECISION>
        requires
            old(self).wf(),
            batch.wf(),
            crate::rans::valid_precision(W::bits(), PRECISION as nat),
        ensures
            old(self).leads_to(final(self)),
            final(self).wf(),
            r.is_err() ==> r == Err::<(), EncodingError>(EncodingError::ImpossibleSymbol),
            crate::symbols::encodes::<W, D, PRECISION>(
                old(self)@,
                final(self)@,
                S::bits(),
                batch.in_order(reverse),
                r.is_ok(),
            ),
            r.is_ok() ==> crate::rans::encoded(
                old(self)@,
                final(self)@,
                W::bits(),
                S::bits(),
                PRECISION as nat,
                batch.pairs().len(),
            ),
            r.is_err() ==> exists|count: nat|
                count < batch.pairs().len() && #[trigger] crate::rans::encoded(
                    old(self)@,
                    final(self)@,
                    W::bits(),
                    S::bits(),
                    PRECISION as nat,
                    count,
                ),
    {
        let len = batch.len();
        let ghost pairs = batch.in_order(reverse);
        let mut i: usize = 0;
        proof {
            self.lemma_leads_to_itself();
        }
        while i < len
            invariant
                batch.wf(),
                len == pairs.len() == batch.pairs().len(),
                pairs == batch.in_order(reverse),
                i <= len,
                self.wf(),
                old(self).leads_to(self),
                crate::rans::valid_precision(W::bits(), PRECISION as nat),
                crate::symbols::took::<W, D, PRECISION>(
                    old(self)@,
                    self@,
                    S::bits(),
                    pairs.take(i as int),
                ),
            decreases len - i,
        {
            let ghost middle = *self;
            let index = if reverse {
                len - 1 - i
            } else {
                i
            };
            let symbol = batch.symbol(index);
            let model = batch.model(index);
            let encoded = self.encode_symbol::<D, PRECISION>(symbol, model);
            proof {
                old(self).lemma_leads_to_is_transitive(&middle, self);
                let pair = (*symbol, *model);
                assert(pairs[i as int] == pair);
                let answer = choose|answer: Result<(W, W), ()>|
                    #[trigger] crate::models::answers::<W, D, PRECISION>(model, symbol, answer)
                        && match crate::models::interval(answer) {
                        Some(interval) => encoded.is_ok() && self@ == crate::rans::encode_step(
                            middle@,
                            W::bits(),
                            S::bits(),
                            PRECISION as nat,
                            interval.0,
                            interval.1,
                        ),
                        None => encoded.is_err(),
                    };
                assert(crate::models::answers::<W, D, PRECISION>(&pair.1, &pair.0, answer));
                self.lemma_took_step::<D, PRECISION>(
                    old(self)@,
                    middle@,
                    pairs.take(i as int),
                    pair,
                    encoded.is_ok(),
                );
                assert(pairs.take(i as int).push(pair) =~= pairs.take(i + 1));
            }
            if let Err(error) = encoded {
                proof {
                    crate::symbols::lemma_took_encoded::<W, D, PRECISION>(
                        old(self)@,
                        self@,
                        S::bits(),
                        pairs.take(i as int),
                    );
                }
                return Err(error);
            }
            i += 1;
        }
        proof {
            assert(pairs.take(len as int) =~= pairs);
            crate::symbols::lemma_took_encoded::<W, D, PRECISION>(
                old(self)@,
                self@,
                S::bits(),
                pairs,
            );
        }
        Ok(())
    }

    /// Encodes the symbols with their models, the first one first, until it meets an
    /// error in place of a symbol and its model, or a symbol that cannot be encoded.
    /// What was encoded before stays encoded.
    pub fn try_encode_symbols<D, E, const PRECISION: usize>(
        &mut self,
        symbols_and_models: Vec<Result<(D::Symbol, D), E>>,
    ) -> (r: Result<(), TryCodingError<EncodingError, E>>) where
        B: WriteBackend<W>,
        D: EncoderModel<W, PRECISION>,

        requires
            old(self).wf(),
            crate::rans::valid_precision(W::bits(), PRECISION as nat),
        ensures
            old(self).leads_to(final(self)),
            final(self).wf(),
            exists|count: nat|
                #[trigger] crate::rans::encoded(
                    old(self)@,
                    final(self)@,
                    W::bits(),
                    S::bits(),
                    PRECISION as nat,
                    count,
                ) && tries::<W, D, E, PRECISION>(
                    old(self)@,
                    final(self)@,
                    S::bits(),
                    symbols_and_models@,
                    r,
                    count,
                ),
    {
        let from_end = reversed(symbols_and_models);
        proof {
            assert(from_end@.reverse() =~= symbols_and_models@);
        }
        self.encode_from_end::<D, E, PRECISION>(from_end)
    }

    /// Encodes the symbols with their models, the last one first, until it meets an
    /// error in place of a symbol and its model, or a symbol that cannot be encoded.
    /// What was encoded before stays encoded.
    pub fn try_encode_symbols_reverse<D, E, const PRECISION: usize>(
        &mut self,
        symbols_and_models: Vec<Result<(D::Symbol, D), E>>,
    ) -> (r: Result<(), TryCodingError<EncodingError, E>>) where
        B: WriteBackend<W>,
        D: EncoderModel<W, PRECISION>,

        requires
            old(self).wf(),
            crate::rans::valid_precision(W::bits(), PRECISION as nat),
        ensures
            old(self).leads_to(final(self)),
            final(self).wf(),
            exists|count: nat|
                #[trigger] crate::rans::encoded(
                    old(self)@,
                    final(self)@,
                    W::bits(),
                    S::bits(),
                    PRECISION as nat,
                    count,
                ) && tries::<W, D, E, PRECISION>(
                    old(self)@,
                    final(self)@,
                    S::bits(),
                    symbols_and_models@.reverse(),
                    r,
                    count,
                ),
    {
        self.encode_from_end::<D, E, PRECISION>(symbols_and_models)
    }

    /// Takes the entries off the end of `entries` and encodes them, until it meets an
    /// error in place of a symbol and its model, or a symbol that cannot be encoded.
    fn encode_from_end<D, E, const PRECISION: usize>(
        &mut self,
        entries: Vec<Result<(D::Symbol, D), E>>,
    ) -> (r: Result<(), TryCodingError<EncodingError, E>>) where
        B: WriteBackend<W>,
        D: EncoderModel<W, PRECISION>,

        requires
            old(self).wf(),
            crate::rans::valid_precision(W::bits(), PRECISION as nat),
        ensures
            old(self).leads_to(final(self)),
            final(self).wf(),
            exists|count: nat|
                #[trigger] crate::rans::encoded(
                    old(self)@,
                    final(self)@,
                    W::bits(),
                    S::bits(),
                    PRECISION as nat,
                    count,
                ) && tries::<W, D, E, PRECISION>(
                    old(self)@,
                    final(self)@,
                    S::bits(),
                    entries@.reverse(),
                    r,
                    count,
                ),
    {
        let mut rest = entries;
        let ghost in_order = entries@.reverse();
        proof {
            crate::rans::lemma_encoded_none(self@, W::bits(), S::bits(), PRECISION as nat);
            self.lemma_leads_to_itself();
        }
        loop
            invariant
                self.wf(),
                old(self).leads_to(self),
                crate::rans::valid_precision(W::bits(), PRECISION as nat),
                in_order == entries@.reverse(),
                rest@.len() <= entries@.len(),
                rest@ == entries@.take(rest@.len() as int),
                forall|i: int|
                    0 <= i < entries@.len() - rest@.len() ==> (#[trigger] in_order[i]).is_ok(),
                crate::symbols::took::<W, D, PRECISION>(
                    old(self)@,
                    self@,
                    S::bits(),
                    crate::symbols::pairs_of(in_order, (entries@.len() - rest@.len()) as nat),
                ),
                crate::rans::encoded(
                    old(self)@,
                    self@,
                    W::bits(),
                    S::bits(),
                    PRECISION as nat,
                    (entries@.len() - rest@.len()) as nat,
                ),
            ensures
                self.wf(),
                old(self).leads_to(self),
                crate::rans::encoded(
                    old(self)@,
                    self@,
                    W::bits(),
                    S::bits(),
                    PRECISION as nat,
                    entries@.len(),
                ),
                tries::<W, D, E, PRECISION>(
                    old(self)@,
                    self@,
                    S::bits(),
                    in_order,
                    Ok::<(), TryCodingError<EncodingError, E>>(()),
                    entries@.len(),
                ),
            decreases rest@.len(),
        {
            let ghost middle = *self;
            let ghost count = (entries@.len() - rest@.len()) as nat;
            let ghost remaining = rest@;
            match rest.pop() {
                Some(entry) => {
                    assert(in_order[count as int] == entry) by {
                        assert(entries@[remaining.len() - 1] == remaining[remaining.len() - 1]);
                    }
                    match entry {
                        Ok((symbol, model)) => {
                            let encoded = self.encode_symbol::<D, PRECISION>(&symbol, &model);
                            proof {
                                old(self).lemma_leads_to_is_transitive(&middle, self);
                                let taken = crate::symbols::pairs_of(in_order, count);
                                self.lemma_took_step::<D, PRECISION>(
                                    old(self)@,
                                    middle@,
                                    taken,
                                    (symbol, model),
                                    encoded.is_ok(),
                                );
                                assert(taken.push((symbol, model)) =~= crate::symbols::pairs_of(
                                    in_order,
                                    count + 1,
                                ));
                            }
                            match encoded {
                                Ok(()) => {
                                    proof {
                                        self.lemma_encoded_one_more::<PRECISION>(
                                            old(self)@,
                                            middle@,
                                            count,
                                        );
                                    }
                                },
                                Err(error) => {
                                    let r = Err(TryCodingError::CodingError(error));
                                    return r;
                                },
                            }
                        },
                        Err(error) => {
                            let r = Err(TryCodingError::InvalidEntropyModel(error));
                            return r;
                        },
                    }
                },
                None => {
                    break ;
                },
            }
        }
        Ok(())
    }

    /// Decodes one symbol with each of the models, the first one first, and returns
    /// the symbols that the models gave, in this order.
    pub fn decode_symbols<D, const PRECISION: usize>(
        &mut self,
        models: &[D],
    ) -> (symbols: Vec<D::Symbol>) where B: ReadStackBackend<W>, D: DecoderModel<W, PRECISION>
        requires
            old(self).wf(),
            crate::rans::valid_precision(W::bits(), PRECISION as nat),
        ensures
            old(self).leads_to(final(self)),
            final(self).wf(),
            symbols@.len() == models@.len(),
            crate::symbols::gave::<W, D, PRECISION>(
                old(self)@,
                final(self)@,
                S::bits(),
                models@,
                symbols@,
            ),
            crate::rans::decoded(
                old(self)@,
                final(self)@,
                W::bits(),
                S::bits(),
                PRECISION as nat,
                models@.len(),
            ),
    {
        self.decode_batch::<D, PRECISION>(Decoders::Each(models))
    }

    /// Decodes `amt` symbols with one model for all, and returns the symbols that
    /// the model gave, the one that was decoded first first.
    pub fn decode_iid_symbols<D, const PRECISION: usize>(
        &mut self,
        amt: usize,
        model: &D,
    ) -> (symbols: Vec<D::Symbol>) where B: ReadStackBackend<W>, D: DecoderModel<W, PRECISION>
        requires
            old(self).wf(),
            crate::rans::valid_precision(W::bits(), PRECISION as nat),
        ensures
            old(self).leads_to(final(self)),
            final(self).wf(),
            symbols@.len() == amt,
            crate::symbols::gave::<W, D, PRECISION>(
                old(self)@,
                final(self)@,
                S::bits(),
                crate::symbols::repeated(*model, amt as nat),
                symbols@,
            ),
            crate::rans::decoded(
                old(self)@,
                final(self)@,
                W::bits(),
                S::bits(),
                PRECISION as nat,
                amt as nat,
            ),
    {
        self.decode_batch::<D, PRECISION>(Decoders::Repeated(model, amt))
    }

    /// Decodes one symbol with each of the models of `decoders`, the first one
    /// first, and returns the symbols that the models gave, in this order.
    fn decode_batch<D, const PRECISION: usize>(&mut self, decoders: Decoders<'_, D>) -> (symbols:
        Vec<D::Symbol>) where B: ReadStackBackend<W>, D: DecoderModel<W, PRECISION>
        requires
            old(self).wf(),
            crate::rans::valid_precision(W::bits(), PRECISION as nat),
        ensures
            old(self).leads_to(final(self)),
            final(self).wf(),
            symbols@.len() == decoders.models().len(),
            crate::symbols::gave::<W, D, PRECISION>(
                old(self)@,
                final(self)@,
                S::bits(),
                decoders.models(),
                symbols@,
            ),
            crate::rans::decoded(
                old(self)@,
                final(self)@,
                W::bits(),
                S::bits(),
                PRECISION as nat,
                decoders.models().len(),
            ),
    {
        let len = decoders.len();
        let ghost all = decoders.models();
        let mut symbols: Vec<D::Symbol> = Vec::new();
        let mut i: usize = 0;
        proof {
            crate::rans::lemma_decoded_none(self@, W::bits(), S::bits(), PRECISION as nat);
            self.lemma_leads_to_itself();
        }
        while i < len
            invariant
                len == all.len(),
                all == decoders.models(),
                i <= len,
                symbols@.len() == i,
                self.wf(),
                old(self).leads_to(self),
                crate::rans::valid_precision(W::bits(), PRECISION as nat),
                crate::symbols::gave::<W, D, PRECISION>(
                    old(self)@,
                    self@,
                    S::bits(),
                    all.take(i as int),
                    symbols@,
                ),
                crate::rans::decoded(
                    old(self)@,
                    self@,
                    W::bits(),
                    S::bits(),
                    PRECISION as nat,
                    i as nat,
                ),
            decreases len - i,
        {
            let ghost middle = *self;
            let ghost so_far = symbols@;
            let model = decoders.model(i);
            let symbol = self.decode_symbol::<D, PRECISION>(model);
            proof {
                self.lemma_decoded_one_more::<PRECISION>(old(self)@, middle@, i as nat);
                old(self).lemma_leads_to_is_transitive(&middle, self);
                let (quantile, c, p) = choose|quantile: W, c: W, p: W|
                    quantile.value() == crate::rans::quantile(middle@.state, PRECISION as nat)
                        && #[trigger] crate::models::gives::<W, D, PRECISION>(
                        model,
                        quantile,
                        symbol,
                        c,
                        p,
                    ) && self@ == crate::rans::decode_step(
                        middle@,
                        W::bits(),
                        S::bits(),
                        PRECISION as nat,
                        c.value(),
                        p.value(),
                    );
                assert(crate::models::gives::<W, D, PRECISION>(
                    &all[i as int],
                    quantile,
                    symbol,
                    c,
                    p,
                ));
                crate::symbols::lemma_gave_one_more::<W, D, PRECISION>(
                    old(self)@,
                    middle@,
                    self@,
                    S::bits(),
                    all.take(i as int),
                    so_far,
                    all[i as int],
                    symbol,
                    quantile,
                    c,
                    p,
                );
                assert(all.take(i as int).push(all[i as int]) =~= all.take(i + 1));
            }
            symbols.push(symbol);
            i += 1;
        }
        proof {
            assert(all.take(len as int) =~= all);
        }
        symbols
    }

    /// What [`AnsCoder::encode_symbol`] made of `middle`, with the symbol and the
    /// model of `pair`, is one pair more than what was encoded up to `middle`, or
    /// nothing more if the model refused.
    pub proof fn lemma_took_step<D: EncoderModel<W, PRECISION>, const PRECISION: usize>(
        &self,
        start: AnsState,
        middle: AnsState,
        pairs: Seq<(D::Symbol, D)>,
        pair: (D::Symbol, D),
        ok: bool,
    )
        requires
            crate::symbols::took::<W, D, PRECISION>(start, middle, S::bits(), pairs),
            !ok ==> self@ == middle,
            exists|answer: Result<(W, W), ()>|
                #[trigger] crate::models::answers::<W, D, PRECISION>(&pair.1, &pair.0, answer)
                    && match crate::models::interval(answer) {
                    Some(interval) => ok && self@ == crate::rans::encode_step(
                        middle,
                        W::bits(),
                        S::bits(),
                        PRECISION as nat,
                        interval.0,
                        interval.1,
                    ),
                    None => !ok,
                },
        ensures
            ok ==> crate::symbols::took::<W, D, PRECISION>(
                start,
                self@,
                S::bits(),
                pairs.push(pair),
            ),
            !ok ==> crate::symbols::took::<W, D, PRECISION>(start, self@, S::bits(), pairs)
                && crate::symbols::refuses::<W, D, PRECISION>(pair),
    {
        let answer = choose|answer: Result<(W, W), ()>|
            #[trigger] crate::models::answers::<W, D, PRECISION>(&pair.1, &pair.0, answer)
                && match crate::models::interval(answer) {
                Some(interval) => ok && self@ == crate::rans::encode_step(
                    middle,
                    W::bits(),
                    S::bits(),
                    PRECISION as nat,
                    interval.0,
                    interval.1,
                ),
                None => !ok,
            };
        if ok {
            crate::symbols::lemma_took_one_more::<W, D, PRECISION>(
                start,
                middle,
                self@,
                S::bits(),
                pairs,
                pair,
                answer,
            );
        }
    }

    /// What [`AnsCoder::encode_symbol`] made of `middle` is one symbol more than what
    /// was encoded up to `middle`.
    proof fn lemma_encoded_one_more<const PRECISION: usize>(
        &self,
        start: AnsState,
        middle: AnsState,
        count: nat,
    )
        requires
            crate::rans::encoded(start, middle, W::bits(), S::bits(), PRECISION as nat, count),
            exists|c: nat, p: nat|
                crate::rans::valid_interval(PRECISION as nat, c, p) && self@
                    == #[trigger] crate::rans::encode_step(
                    middle,
                    W::bits(),
                    S::bits(),
                    PRECISION as nat,
                    c,
                    p,
                ),
        ensures
            crate::rans::encoded(start, self@, W::bits(), S::bits(), PRECISION as nat, count + 1),
    {
        let (c, p) = choose|c: nat, p: nat|
            crate::rans::valid_interval(PRECISION as nat, c, p) && self@
                == #[trigger] crate::rans::encode_step(
                middle,
                W::bits(),
                S::bits(),
                PRECISION as nat,
                c,
                p,
            );
        crate::rans::lemma_encoded_one_more(
            start,
            middle,
            W::bits(),
            S::bits(),
            PRECISION as nat,
            count,
            c,
            p,
        );
    }

    /// What [`AnsCoder::decode_symbol`] made of `middle` is one symbol more than what
    /// was decoded up to `middle`.
    proof fn lemma_decoded_one_more<const PRECISION: usize>(
        &self,
        start: AnsState,
        middle: AnsState,
        count: nat,
    )
        requires
            crate::rans::decoded(start, middle, W::bits(), S::bits(), PRECISION as nat, count),
            exists|c: nat, p: nat|
                crate::rans::interval_holds(
                    PRECISION as nat,
                    c,
                    p,
                    crate::rans::quantile(middle.state, PRECISION as nat),
                ) && self@ == #[trigger] crate::rans::decode_step(
                    middle,
                    W::bits(),
                    S::bits(),
                    PRECISION as nat,
                    c,
                    p,
                ),
        ensures
            crate::rans::decoded(start, self@, W::bits(), S::bits(), PRECISION as nat, count + 1),
    {
        let (c, p) = choose|c: nat, p: nat|
            crate::rans::interval_holds(
                PRECISION as nat,
                c,
                p,
                crate::rans::quantile(middle.state, PRECISION as nat),
            ) && self@ == #[trigger] crate::rans::decode_step(
                middle,
                W::bits(),
                S::bits(),
                PRECISION as nat,
                c,
                p,
            );
        crate::rans::lemma_decoded_one_more(
            start,
            middle,
            W::bits(),
            S::bits(),
            PRECISION as nat,
            count,
            c,
            p,
        );
    }
}

} // verus!
