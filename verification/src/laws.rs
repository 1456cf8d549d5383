//! What holds of the coder in general.
//!
//! Each law is stated over the mathematical model of the coder in [`crate::rans`] and
//! [`crate::format`], which the contracts of the executable functions refer to as
//! well. Words have `w` bits, states have `s` bits, probabilities have `prec` bits.
use vstd::arithmetic::div_mod::*;
use vstd::arithmetic::power2::*;
use vstd::prelude::*;

use crate::bit_array::BitArray;
use crate::models::{DecoderModel, EncoderModel};
use crate::rans::AnsState;

verus! {

/// Decoding the first symbol of a sequence and then the rest is the same as decoding
/// the sequence.
pub proof fn lemma_decode_all_first(
    v: AnsState,
    w: nat,
    s: nat,
    prec: nat,
    intervals: Seq<(nat, nat)>,
)
    requires
        intervals.len() > 0,
    ensures
        crate::rans::decode_all(v, w, s, prec, intervals) == crate::rans::decode_all(
            crate::rans::decode_step(v, w, s, prec, intervals[0].0, intervals[0].1),
            w,
            s,
            prec,
            intervals.drop_first(),
        ),
        crate::rans::decodable(v, w, s, prec, intervals) == (crate::rans::interval_holds(
            prec,
            intervals[0].0,
            intervals[0].1,
            crate::rans::quantile(v.state, prec),
        ) && crate::rans::decodable(
            crate::rans::decode_step(v, w, s, prec, intervals[0].0, intervals[0].1),
            w,
            s,
            prec,
            intervals.drop_first(),
        )),
    decreases intervals.len(),
{
    let first = crate::rans::decode_step(v, w, s, prec, intervals[0].0, intervals[0].1);
    if intervals.len() == 1 {
        assert(crate::rans::decode_all(v, w, s, prec, intervals.drop_last()) == v);
        assert(crate::rans::decodable(v, w, s, prec, intervals.drop_last()));
    } else {
        let init = intervals.drop_last();
        lemma_decode_all_first(v, w, s, prec, init);
        assert(init.drop_first() =~= intervals.drop_first().drop_last());
    }
}

/// Decoding undoes encoding. After symbols were encoded onto a well-formed coder,
/// decoding finds, symbol by symbol and last symbol first, a quantile in the
/// interval of the symbol that was encoded, so that a decoder model with the same
/// intervals answers with that symbol; and it leaves the coder as it was before.
pub proof fn law_decoding_undoes_encoding(
    v: AnsState,
    w: nat,
    s: nat,
    prec: nat,
    intervals: Seq<(nat, nat)>,
)
    requires
        crate::rans::valid_widths(w, s),
        crate::rans::valid_precision(w, prec),
        crate::rans::well_formed(v, w, s),
        crate::rans::valid_intervals(prec, intervals),
    ensures
        crate::rans::decodable(
            crate::rans::encode_all(v, w, s, prec, intervals),
            w,
            s,
            prec,
            intervals.reverse(),
        ),
        crate::rans::decode_all(
            crate::rans::encode_all(v, w, s, prec, intervals),
            w,
            s,
            prec,
            intervals.reverse(),
        ) == v,
    decreases intervals.len(),
{
    let after = crate::rans::encode_all(v, w, s, prec, intervals);
    let reversed = intervals.reverse();
    if intervals.len() > 0 {
        let init = intervals.drop_last();
        let last = intervals.last();
        let before = crate::rans::encode_all(v, w, s, prec, init);
        assert(crate::rans::valid_intervals(prec, init)) by {
            assert forall|i: int| 0 <= i < init.len() implies crate::rans::valid_interval(
                prec,
                (#[trigger] init[i]).0,
                init[i].1,
            ) by {
                assert(init[i] == intervals[i]);
            }
        }
        law_decoding_undoes_encoding(v, w, s, prec, init);
        crate::rans::lemma_encode_all_well_formed(v, w, s, prec, init);
        crate::rans::lemma_decode_undoes_encode(before, w, s, prec, last.0, last.1);
        assert(reversed.drop_first() =~= init.reverse());
        lemma_decode_all_first(after, w, s, prec, reversed);
    }
}

/// Encoding undoes decoding: a symbol that was decoded from a well-formed coder
/// and is encoded again, with the same interval, leaves the coder as it was.
pub proof fn law_encoding_undoes_decoding(v: AnsState, w: nat, s: nat, prec: nat, c: nat, p: nat)
    requires
        crate::rans::valid_widths(w, s),
        crate::rans::valid_precision(w, prec),
        crate::rans::well_formed(v, w, s),
        crate::rans::interval_holds(prec, c, p, crate::rans::quantile(v.state, prec)),
    ensures
        crate::rans::encode_step(
            crate::rans::decode_step(v, w, s, prec, c, p),
            w,
            s,
            prec,
            c,
            p,
        ) == v,
{
    crate::rans::lemma_pop_in_range(v.state, s, prec, c, p);
    crate::rans::lemma_push_undoes_pop(v.state, prec, c, p);
    let popped = AnsState { bulk: v.bulk, state: crate::rans::pop_symbol(v.state, prec, c, p) };
    let after = crate::rans::decode_step(v, w, s, prec, c, p);
    let m = pow2(prec);
    let d = pow2((s - prec) as nat);
    let x = v.state / m;
    let r = (crate::rans::quantile(v.state, prec) - c) as nat;
    if popped.state < crate::rans::threshold(w, s) && popped.bulk.len() > 0 {
        crate::rans::lemma_refill_in_range(popped, w, s);
        let e = pow2((s - w - prec) as nat);
        let low = pow2(w);
        crate::rans::lemma_pow2_product((s - w - prec) as nat, w);
        crate::rans::lemma_div_pow2_range(v.state, prec, (s - w - prec) as nat);
        assert(after.state >= p * d) by (nonlinear_arith)
            requires
                after.state >= popped.state * low,
                popped.state >= x * p,
                x >= e,
                d == e * low,
                p >= 1,
                low >= 1,
        ;
        lemma_div_is_ordered((p * d) as int, after.state as int, d as int);
        lemma_div_by_multiple(p as int, d as int);
        assert(crate::rans::flush(after, w).bulk =~= v.bulk);
    } else {
        assert(popped.state < p * d) by (nonlinear_arith)
            requires
                popped.state == x * p + r,
                r < p,
                x < d,
        ;
        lemma_multiply_divide_lt(popped.state as int, d as int, p as int);
    }
}

/// A coder that was empty before symbols were encoded is empty again after they
/// were decoded.
pub proof fn law_decoding_all_leaves_empty(w: nat, s: nat, prec: nat, intervals: Seq<(nat, nat)>)
    requires
        crate::rans::valid_widths(w, s),
        crate::rans::valid_precision(w, prec),
        crate::rans::valid_intervals(prec, intervals),
    ensures
        crate::rans::decode_all(
            crate::rans::encode_all(crate::rans::empty(), w, s, prec, intervals),
            w,
            s,
            prec,
            intervals.reverse(),
        ).state == 0,
{
    lemma_pow2_pos(s);
    law_decoding_undoes_encoding(crate::rans::empty(), w, s, prec, intervals);
}

/// Encoding and decoding keep the invariant on the state: it reaches
/// `2^(s - w)` unless the bulk is empty. A state of zero thus comes with an empty
/// bulk, and a state that is neither zero nor at the threshold only with an empty
/// bulk.
pub proof fn law_state_invariant(v: AnsState, w: nat, s: nat, prec: nat, c: nat, p: nat)
    requires
        crate::rans::valid_widths(w, s),
        crate::rans::valid_precision(w, prec),
        crate::rans::well_formed(v, w, s),
    ensures
        crate::rans::valid_interval(prec, c, p) ==> crate::rans::well_formed(
            crate::rans::encode_step(v, w, s, prec, c, p),
            w,
            s,
        ),
        crate::rans::interval_holds(prec, c, p, crate::rans::quantile(v.state, prec))
            ==> crate::rans::well_formed(crate::rans::decode_step(v, w, s, prec, c, p), w, s),
        v.bulk.len() > 0 ==> v.state >= crate::rans::threshold(w, s),
        v.state == 0 ==> v.bulk.len() == 0,
        !(v.bulk.len() == 0 && 0 < v.state < crate::rans::threshold(w, s)) ==> v.state == 0
            || v.state >= crate::rans::threshold(w, s),
{
    lemma_pow2_pos((s - w) as nat);
    if crate::rans::valid_interval(prec, c, p) {
        crate::rans::lemma_encode_step_well_formed(v, w, s, prec, c, p);
    }
    if crate::rans::interval_holds(prec, c, p, crate::rans::quantile(v.state, prec)) {
        crate::rans::lemma_decode_step_well_formed(v, w, s, prec, c, p);
    }
}

/// The compressed representation of an empty coder is empty.
pub proof fn law_empty_coder_compresses_to_nothing(v: AnsState, w: nat, s: nat)
    requires
        crate::rans::valid_widths(w, s),
        crate::rans::well_formed(v, w, s),
        v.state == 0,
    ensures
        crate::format::compressed(v, w) == Seq::<nat>::empty(),
{
    lemma_pow2_pos((s - w) as nat);
}

/// The compressed representation of a coder that is not empty ends in a word that
/// is not zero.
pub proof fn law_compressed_ends_in_nonzero_word(v: AnsState, w: nat)
    requires
        w > 0,
        v.state > 0,
    ensures
        crate::format::compressed(v, w).len() > 0,
        crate::format::compressed(v, w).last() != 0,
        crate::format::is_compressed(crate::format::compressed(v, w)),
{
    crate::format::lemma_chunks_last_is_not_zero(v.state, w);
}

/// Reading a well-formed coder back from its compressed representation gives the
/// coder, and the compressed representation is accepted.
pub proof fn law_from_compressed_undoes_into_compressed(v: AnsState, w: nat, s: nat)
    requires
        crate::rans::valid_widths(w, s),
        crate::rans::well_formed(v, w, s),
    ensures
        crate::format::is_compressed(crate::format::compressed(v, w)),
        crate::format::from_compressed(crate::format::compressed(v, w), w, s) == v,
{
    if v.state > 0 {
        law_compressed_ends_in_nonzero_word(v, w);
    } else {
        law_empty_coder_compresses_to_nothing(v, w, s);
    }
    crate::format::lemma_absorb_chunks(v.bulk, v.state, w, s);
}

/// The compressed representation of the coder that was read from accepted words
/// is these words.
pub proof fn law_into_compressed_undoes_from_compressed(words: Seq<nat>, w: nat, s: nat)
    requires
        crate::rans::valid_widths(w, s),
        forall|i: int| 0 <= i < words.len() ==> #[trigger] words[i] < pow2(w),
        crate::format::is_compressed(words),
    ensures
        crate::rans::well_formed(crate::format::from_compressed(words, w, s), w, s),
        crate::format::compressed(crate::format::from_compressed(words, w, s), w) == words,
{
    let start = AnsState { bulk: words, state: 0 };
    lemma_pow2_pos(s);
    crate::format::lemma_absorb_well_formed(start, w, s);
    crate::format::lemma_absorb_keeps_compressed(start, w, s);
}

/// A coder that was made of arbitrary words gives these words back, and it is
/// never empty.
pub proof fn law_into_binary_undoes_from_binary(words: Seq<nat>, w: nat, s: nat)
    requires
        crate::rans::valid_widths(w, s),
        forall|i: int| 0 <= i < words.len() ==> #[trigger] words[i] < pow2(w),
    ensures
        crate::rans::well_formed(crate::format::from_binary(words, w, s), w, s),
        crate::format::from_binary(words, w, s).state > 0,
        crate::format::is_sealed(crate::format::from_binary(words, w, s).state, w),
        crate::format::binary(crate::format::from_binary(words, w, s), w) == words,
{
    let start = AnsState { bulk: words, state: 1 };
    lemma2_to64();
    crate::rans::lemma_pow2_monotonic(1, s);
    assert(crate::bit_array::bit_length(1) == 1) by {
        crate::bit_array::lemma_bit_length_unique(1, 1);
    }
    assert(0nat % w == 0) by {
        lemma_small_mod(0, w);
    }
    crate::format::lemma_absorb_well_formed(start, w, s);
    crate::format::lemma_absorb_keeps_binary(start, w, s);
    assert(0int / (w as int) == 0) by {
        lemma_basic_div(0, w as int);
    }
}

/// The compressed representation has as many words as the bulk, and as the bits of
/// the state need.
pub proof fn law_compressed_len(v: AnsState, w: nat)
    requires
        w > 0,
    ensures
        crate::format::compressed(v, w).len() == v.bulk.len() + crate::format::words_for_bits(
            crate::bit_array::bit_length(v.state),
            w,
        ),
{
    crate::format::lemma_chunks_len(v.state, w);
}

/// An empty coder stays empty when a symbol of probability one is encoded, and when
/// it is decoded again.
pub proof fn law_certain_symbol_leaves_empty(w: nat, s: nat, prec: nat)
    requires
        crate::rans::valid_widths(w, s),
        crate::rans::valid_precision(w, prec),
    ensures
        crate::rans::encode_step(crate::rans::empty(), w, s, prec, 0, pow2(prec))
            == crate::rans::empty(),
        crate::rans::interval_holds(prec, 0, pow2(prec), crate::rans::quantile(0, prec)),
        crate::rans::decode_step(crate::rans::empty(), w, s, prec, 0, pow2(prec))
            == crate::rans::empty(),
{
    let p = pow2(prec);
    lemma_pow2_pos(prec);
    lemma_pow2_pos((s - prec) as nat);
    lemma_basic_div(0, p as int);
    assert(0 * p == 0) by (nonlinear_arith);
}

/// Encoding only adds to the bulk. The position and the state of a coder thus stay
/// a snapshot of it when more symbols are encoded: the words below the position,
/// taken with the state, are the coder as it was. A seek to the snapshot is
/// accepted, unless the snapshot was taken with an empty bulk and a state at or
/// above the threshold.
pub proof fn law_seek_returns_to_snapshot(
    v: AnsState,
    w: nat,
    s: nat,
    prec: nat,
    intervals: Seq<(nat, nat)>,
)
    requires
        crate::rans::valid_widths(w, s),
        crate::rans::valid_precision(w, prec),
        crate::rans::well_formed(v, w, s),
        crate::rans::valid_intervals(prec, intervals),
    ensures
        v.bulk.len() <= crate::rans::encode_all(v, w, s, prec, intervals).bulk.len(),
        (AnsState {
            bulk: crate::rans::encode_all(v, w, s, prec, intervals).bulk.take(
                v.bulk.len() as int,
            ),
            state: v.state,
        }) == v,
        !(v.bulk.len() == 0 && v.state >= crate::rans::threshold(w, s))
            ==> crate::backends::seek_succeeds(
            Some(
                crate::rans::encode_all(v, w, s, prec, intervals).bulk.take(v.bulk.len() as int),
            ),
            v.state < crate::rans::threshold(w, s),
        ),
    decreases intervals.len(),
{
    let after = crate::rans::encode_all(v, w, s, prec, intervals);
    if intervals.len() == 0 {
        assert(after.bulk.take(v.bulk.len() as int) =~= v.bulk);
    } else {
        let init = intervals.drop_last();
        assert(crate::rans::valid_intervals(prec, init)) by {
            assert forall|i: int| 0 <= i < init.len() implies crate::rans::valid_interval(
                prec,
                (#[trigger] init[i]).0,
                init[i].1,
            ) by {
                assert(init[i] == intervals[i]);
            }
        }
        law_seek_returns_to_snapshot(v, w, s, prec, init);
        let before = crate::rans::encode_all(v, w, s, prec, init);
        let last = intervals.last();
        if crate::rans::needs_flush(before.state, s, prec, last.1) {
            lemma_pow2_pos(w);
            assert(after.bulk.take(v.bulk.len() as int) =~= before.bulk.take(
                v.bulk.len() as int,
            ));
        }
    }
}

/// Symbols come back in reverse order. After symbols were encoded onto a
/// well-formed coder with their models, decoding with models that invert these,
/// last model first, gives the symbols, last symbol first, and leaves the coder
/// as it was before: empty, if it was empty.
pub proof fn law_symbols_come_back<
    W: BitArray,
    E: EncoderModel<W, PRECISION>,
    D: DecoderModel<W, PRECISION, Symbol = E::Symbol>,
    const PRECISION: usize,
>(
    before: AnsState,
    encoded: AnsState,
    decoded: AnsState,
    s: nat,
    pairs: Seq<(E::Symbol, E)>,
    models: Seq<D>,
    symbols: Seq<E::Symbol>,
)
    requires
        crate::rans::valid_widths(W::bits(), s),
        crate::rans::valid_precision(W::bits(), PRECISION as nat),
        crate::rans::well_formed(before, W::bits(), s),
        crate::symbols::took::<W, E, PRECISION>(before, encoded, s, pairs),
        crate::symbols::gave::<W, D, PRECISION>(encoded, decoded, s, models, symbols),
        models.len() == pairs.len(),
        forall|k: int|
            0 <= k < pairs.len() ==> crate::symbols::inverts::<W, E, D, PRECISION>(
                (#[trigger] pairs[pairs.len() - 1 - k]).1,
                models[k],
            ),
    ensures
        decoded == before,
        symbols.len() == pairs.len(),
        forall|k: int|
            0 <= k < pairs.len() ==> #[trigger] symbols[k] == pairs[pairs.len() - 1 - k].0,
    decreases pairs.len(),
{
    let n = pairs.len() as int;
    if n > 0 {
        let init = pairs.drop_last();
        let last = pairs.last();
        let (middle, answer) = choose|middle: AnsState, answer: Result<(W, W), ()>|
            crate::symbols::took::<W, E, PRECISION>(before, middle, s, init)
                && #[trigger] crate::symbols::encodes_one::<W, E, PRECISION>(
                middle,
                encoded,
                s,
                last,
                answer,
            );
        let (first, quantile, c, p) = choose|first: AnsState, quantile: W, c: W, p: W|
            #[trigger] crate::symbols::decodes_one::<W, D, PRECISION>(
                encoded,
                first,
                s,
                models[0],
                symbols[0],
                quantile,
                c,
                p,
            ) && crate::symbols::gave::<W, D, PRECISION>(
                first,
                decoded,
                s,
                models.drop_first(),
                symbols.drop_first(),
            );
        let interval = crate::models::interval(answer).unwrap();
        crate::symbols::lemma_took_well_formed::<W, E, PRECISION>(before, middle, s, init);
        crate::symbols::lemma_answer_is_valid::<W, E, PRECISION>(&last.1, &last.0, answer);
        crate::rans::lemma_decode_undoes_encode(
            middle,
            W::bits(),
            s,
            PRECISION as nat,
            interval.0,
            interval.1,
        );
        assert(pairs[n - 1 - 0] == last);
        assert(crate::symbols::inverts::<W, E, D, PRECISION>(last.1, models[0]));
        assert(first == middle);
        assert forall|k: int| 0 <= k < init.len() implies crate::symbols::inverts::<
            W,
            E,
            D,
            PRECISION,
        >((#[trigger] init[init.len() - 1 - k]).1, models.drop_first()[k]) by {
            assert(init[init.len() - 1 - k] == pairs[n - 1 - (k + 1)]);
        }
        law_symbols_come_back::<W, E, D, PRECISION>(
            before,
            middle,
            decoded,
            s,
            init,
            models.drop_first(),
            symbols.drop_first(),
        );
        assert forall|k: int| 0 <= k < n implies #[trigger] symbols[k] == pairs[n - 1 - k].0 by {
            if k > 0 {
                assert(symbols[k] == symbols.drop_first()[k - 1]);
                assert(init[init.len() - 1 - (k - 1)] == pairs[n - 1 - k]);
            }
        }
    }
}

} // verus!
