//! What encoding and decoding symbols with models makes of a coder.
//!
//! A model is the caller's code: all that is known of its answers is what its
//! contract says. The predicates here speak of the answers that the models may
//! give, and of what the coder does with them.
use vstd::prelude::*;

use crate::bit_array::BitArray;
use crate::models::{DecoderModel, EncoderModel};
use crate::rans::AnsState;

verus! {

/// Whether `after` is what encoding the symbol of `pair` with its model makes of
/// `before`, where the model answers `answer`. Words have `bits(W)` bits, states
/// have `s` bits.
pub open spec fn encodes_one<W: BitArray, D: EncoderModel<W, PRECISION>, const PRECISION: usize>(
    before: AnsState,
    after: AnsState,
    s: nat,
    pair: (D::Symbol, D),
    answer: Result<(W, W), ()>,
) -> bool {
    crate::models::answers::<W, D, PRECISION>(&pair.1, &pair.0, answer)
        && match crate::models::interval(answer) {
        Some(interval) => after == crate::rans::encode_step(
            before,
            W::bits(),
            s,
            PRECISION as nat,
            interval.0,
            interval.1,
        ),
        None => false,
    }
}

/// Whether the model of `pair` may refuse the symbol of `pair`, or give it the
/// probability zero.
pub open spec fn refuses<W: BitArray, D: EncoderModel<W, PRECISION>, const PRECISION: usize>(
    pair: (D::Symbol, D),
) -> bool {
    exists|answer: Result<(W, W), ()>|
        #[trigger] crate::models::answers::<W, D, PRECISION>(&pair.1, &pair.0, answer)
            && crate::models::interval(answer).is_none()
}

/// Whether `after` is what encoding the symbols of `pairs` with their models, the
/// first pair first, makes of `before`.
pub open spec fn took<W: BitArray, D: EncoderModel<W, PRECISION>, const PRECISION: usize>(
    before: AnsState,
    after: AnsState,
    s: nat,
    pairs: Seq<(D::Symbol, D)>,
) -> bool
    decreases pairs.len(),
{
    if pairs.len() == 0 {
        after == before
    } else {
        exists|middle: AnsState, answer: Result<(W, W), ()>|
            took::<W, D, PRECISION>(before, middle, s, pairs.drop_last())
                && #[trigger] encodes_one::<W, D, PRECISION>(
                middle,
                after,
                s,
                pairs.last(),
                answer,
            )
    }
}

/// Whether `after` is what encoding the symbols of `pairs` with their models, the
/// first pair first, makes of `before`: all of them if `ok`, else those before the
/// first one whose model refuses it.
pub open spec fn encodes<W: BitArray, D: EncoderModel<W, PRECISION>, const PRECISION: usize>(
    before: AnsState,
    after: AnsState,
    s: nat,
    pairs: Seq<(D::Symbol, D)>,
    ok: bool,
) -> bool {
    if ok {
        took::<W, D, PRECISION>(before, after, s, pairs)
    } else {
        exists|count: int|
            0 <= count < pairs.len() && #[trigger] took::<W, D, PRECISION>(
                before,
                after,
                s,
                pairs.take(count),
            ) && refuses::<W, D, PRECISION>(pairs[count])
    }
}

/// Each symbol with the one model.
pub open spec fn with_model<Symbol, D>(symbols: Seq<Symbol>, model: D) -> Seq<(Symbol, D)> {
    Seq::new(symbols.len(), |i: int| (symbols[i], model))
}

/// Each symbol with its model.
pub open spec fn with_models<Symbol, D>(symbols: Seq<Symbol>, models: Seq<D>) -> Seq<(Symbol, D)>
    recommends
        symbols.len() == models.len(),
{
    Seq::new(symbols.len(), |i: int| (symbols[i], models[i]))
}

/// The first `count` entries, which are symbols with their models.
pub open spec fn pairs_of<T, E>(entries: Seq<Result<T, E>>, count: nat) -> Seq<T> {
    Seq::new(count, |i: int| entries[i]->Ok_0)
}

/// Whether `after` is what decoding `symbol` with `model` makes of `before`, where
/// the model answers the quantile of `before` with `symbol`, `left_cumulative` and
/// `probability`.
pub open spec fn decodes_one<W: BitArray, D: DecoderModel<W, PRECISION>, const PRECISION: usize>(
    before: AnsState,
    after: AnsState,
    s: nat,
    model: D,
    symbol: D::Symbol,
    quantile: W,
    left_cumulative: W,
    probability: W,
) -> bool {
    &&& quantile.value() == crate::rans::quantile(before.state, PRECISION as nat)
    &&& crate::models::gives::<W, D, PRECISION>(
        &model,
        quantile,
        symbol,
        left_cumulative,
        probability,
    )
    &&& after == crate::rans::decode_step(
        before,
        W::bits(),
        s,
        PRECISION as nat,
        left_cumulative.value(),
        probability.value(),
    )
}

/// Whether `after` is what decoding one symbol with each of `models`, the first
/// one first, makes of `before`, and `symbols` are the symbols that the models
/// gave.
pub open spec fn gave<W: BitArray, D: DecoderModel<W, PRECISION>, const PRECISION: usize>(
    before: AnsState,
    after: AnsState,
    s: nat,
    models: Seq<D>,
    symbols: Seq<D::Symbol>,
) -> bool
    decreases models.len(),
{
    &&& models.len() == symbols.len()
    &&& if models.len() == 0 {
        after == before
    } else {
        exists|middle: AnsState, quantile: W, left_cumulative: W, probability: W|
            #[trigger] decodes_one::<W, D, PRECISION>(
                before,
                middle,
                s,
                models[0],
                symbols[0],
                quantile,
                left_cumulative,
                probability,
            ) && gave::<W, D, PRECISION>(
                middle,
                after,
                s,
                models.drop_first(),
                symbols.drop_first(),
            )
    }
}

/// The one model, `amt` times.
pub open spec fn repeated<D>(model: D, amt: nat) -> Seq<D> {
    Seq::new(amt, |i: int| model)
}

/// One more symbol that is encoded after `pairs` makes `pairs` with one more pair.
pub proof fn lemma_took_one_more<
    W: BitArray,
    D: EncoderModel<W, PRECISION>,
    const PRECISION: usize,
>(
    before: AnsState,
    middle: AnsState,
    after: AnsState,
    s: nat,
    pairs: Seq<(D::Symbol, D)>,
    pair: (D::Symbol, D),
    answer: Result<(W, W), ()>,
)
    requires
        took::<W, D, PRECISION>(before, middle, s, pairs),
        encodes_one::<W, D, PRECISION>(middle, after, s, pair, answer),
    ensures
        took::<W, D, PRECISION>(before, after, s, pairs.push(pair)),
{
    let more = pairs.push(pair);
    assert(more.drop_last() =~= pairs);
    assert(encodes_one::<W, D, PRECISION>(middle, after, s, more.last(), answer));
}

/// One more symbol that is decoded after `models` makes `models` with one more
/// model.
pub proof fn lemma_gave_one_more<
    W: BitArray,
    D: DecoderModel<W, PRECISION>,
    const PRECISION: usize,
>(
    before: AnsState,
    middle: AnsState,
    after: AnsState,
    s: nat,
    models: Seq<D>,
    symbols: Seq<D::Symbol>,
    model: D,
    symbol: D::Symbol,
    quantile: W,
    left_cumulative: W,
    probability: W,
)
    requires
        gave::<W, D, PRECISION>(before, middle, s, models, symbols),
        decodes_one::<W, D, PRECISION>(
            middle,
            after,
            s,
            model,
            symbol,
            quantile,
            left_cumulative,
            probability,
        ),
    ensures
        gave::<W, D, PRECISION>(before, after, s, models.push(model), symbols.push(symbol)),
    decreases models.len(),
{
    let more_models = models.push(model);
    let more_symbols = symbols.push(symbol);
    if models.len() == 0 {
        assert(more_models.drop_first() =~= models);
        assert(more_symbols.drop_first() =~= symbols);
        assert(gave::<W, D, PRECISION>(after, after, s, models, symbols));
        assert(decodes_one::<W, D, PRECISION>(
            before,
            after,
            s,
            more_models[0],
            more_symbols[0],
            quantile,
            left_cumulative,
            probability,
        ));
    } else {
        let (first, q, c, p) = choose|first: AnsState, q: W, c: W, p: W|
            #[trigger] decodes_one::<W, D, PRECISION>(
                before,
                first,
                s,
                models[0],
                symbols[0],
                q,
                c,
                p,
            ) && gave::<W, D, PRECISION>(
                first,
                middle,
                s,
                models.drop_first(),
                symbols.drop_first(),
            );
        lemma_gave_one_more::<W, D, PRECISION>(
            first,
            middle,
            after,
            s,
            models.drop_first(),
            symbols.drop_first(),
            model,
            symbol,
            quantile,
            left_cumulative,
            probability,
        );
        assert(more_models.drop_first() =~= models.drop_first().push(model));
        assert(more_symbols.drop_first() =~= symbols.drop_first().push(symbol));
        assert(decodes_one::<W, D, PRECISION>(
            before,
            first,
            s,
            more_models[0],
            more_symbols[0],
            q,
            c,
            p,
        ));
    }
}

/// Symbols that were encoded with their models are as many valid intervals that
/// were encoded.
pub proof fn lemma_took_encoded<
    W: BitArray,
    D: EncoderModel<W, PRECISION>,
    const PRECISION: usize,
>(
    before: AnsState,
    after: AnsState,
    s: nat,
    pairs: Seq<(D::Symbol, D)>,
)
    requires
        took::<W, D, PRECISION>(before, after, s, pairs),
    ensures
        crate::rans::encoded(before, after, W::bits(), s, PRECISION as nat, pairs.len()),
    decreases pairs.len(),
{
    if pairs.len() == 0 {
        crate::rans::lemma_encoded_none(before, W::bits(), s, PRECISION as nat);
    } else {
        let (middle, answer) = choose|middle: AnsState, answer: Result<(W, W), ()>|
            took::<W, D, PRECISION>(before, middle, s, pairs.drop_last())
                && #[trigger] encodes_one::<W, D, PRECISION>(
                middle,
                after,
                s,
                pairs.last(),
                answer,
            );
        lemma_took_encoded::<W, D, PRECISION>(before, middle, s, pairs.drop_last());
        lemma_answer_is_valid::<W, D, PRECISION>(&pairs.last().1, &pairs.last().0, answer);
        let interval = crate::models::interval(answer).unwrap();
        crate::rans::lemma_encoded_one_more(
            before,
            middle,
            W::bits(),
            s,
            PRECISION as nat,
            (pairs.len() - 1) as nat,
            interval.0,
            interval.1,
        );
    }
}

/// Whether `decoder` gives back what `encoder` was given: for a quantile in the
/// interval that the encoder may give for a symbol, the decoder gives that symbol
/// and that interval.
pub open spec fn inverts<
    W: BitArray,
    E: EncoderModel<W, PRECISION>,
    D: DecoderModel<W, PRECISION, Symbol = E::Symbol>,
    const PRECISION: usize,
>(encoder: E, decoder: D) -> bool {
    forall|symbol: E::Symbol, answer: Result<(W, W), ()>, quantile: W, back: E::Symbol, c: W, p: W|
        #![trigger
            crate::models::answers::<W, E, PRECISION>(&encoder, &symbol, answer),
            crate::models::gives::<W, D, PRECISION>(&decoder, quantile, back, c, p),
        ]
        crate::models::answers::<W, E, PRECISION>(&encoder, &symbol, answer)
            && crate::models::gives::<W, D, PRECISION>(&decoder, quantile, back, c, p)
            && crate::models::interval(answer).is_some() && crate::models::interval(
            answer,
        ).unwrap().0 <= quantile.value() < crate::models::interval(answer).unwrap().0
            + crate::models::interval(answer).unwrap().1 ==> back == symbol && c.value()
            == crate::models::interval(answer).unwrap().0 && p.value() == crate::models::interval(
            answer,
        ).unwrap().1
}

/// The interval that a model answers with is one of a symbol that can be encoded.
pub proof fn lemma_answer_is_valid<
    W: BitArray,
    D: EncoderModel<W, PRECISION>,
    const PRECISION: usize,
>(
    model: &D,
    symbol: &D::Symbol,
    answer: Result<(W, W), ()>,
)
    requires
        crate::models::answers::<W, D, PRECISION>(model, symbol, answer),
        crate::models::interval(answer).is_some(),
    ensures
        crate::rans::valid_interval(
            PRECISION as nat,
            crate::models::interval(answer).unwrap().0,
            crate::models::interval(answer).unwrap().1,
        ),
{
}

/// Encoding symbols with models keeps a coder well formed.
pub proof fn lemma_took_well_formed<
    W: BitArray,
    D: EncoderModel<W, PRECISION>,
    const PRECISION: usize,
>(
    before: AnsState,
    after: AnsState,
    s: nat,
    pairs: Seq<(D::Symbol, D)>,
)
    requires
        crate::rans::valid_widths(W::bits(), s),
        crate::rans::valid_precision(W::bits(), PRECISION as nat),
        crate::rans::well_formed(before, W::bits(), s),
        took::<W, D, PRECISION>(before, after, s, pairs),
    ensures
        crate::rans::well_formed(after, W::bits(), s),
    decreases pairs.len(),
{
    if pairs.len() > 0 {
        let (middle, answer) = choose|middle: AnsState, answer: Result<(W, W), ()>|
            took::<W, D, PRECISION>(before, middle, s, pairs.drop_last())
                && #[trigger] encodes_one::<W, D, PRECISION>(
                middle,
                after,
                s,
                pairs.last(),
                answer,
            );
        lemma_took_well_formed::<W, D, PRECISION>(before, middle, s, pairs.drop_last());
        lemma_answer_is_valid::<W, D, PRECISION>(&pairs.last().1, &pairs.last().0, answer);
        let interval = crate::models::interval(answer).unwrap();
        crate::rans::lemma_encode_step_well_formed(
            middle,
            W::bits(),
            s,
            PRECISION as nat,
            interval.0,
            interval.1,
        );
    }
}

} // verus!
