//! The compressed representation of a coder, as mathematics.
//!
//! A coder is stored as its bulk followed by the words of its state, least
//! significant word first and without leading zero words. The word that comes last
//! is thus the most significant one, and it is never zero. Reading a coder back
//! takes words off the end until the state reaches the threshold again.
use vstd::arithmetic::div_mod::*;
use vstd::arithmetic::power2::*;
use vstd::prelude::*;

use crate::rans::AnsState;

verus! {

/// The words of `x`, `w` bits each, least significant first, up to and including
/// the most significant word that is not zero.
pub open spec fn chunks(x: nat, w: nat) -> Seq<nat>
    decreases x,
    via chunks_decreases
{
    if x == 0 || w == 0 {
        Seq::empty()
    } else {
        seq![x % pow2(w)] + chunks(x / pow2(w), w)
    }
}

#[via_fn]
proof fn chunks_decreases(x: nat, w: nat) {
    if x != 0 && w != 0 {
        lemma_shift_decreases(x, w);
    }
}

/// Dropping at least one bit from a positive number makes it smaller.
pub proof fn lemma_shift_decreases(x: nat, w: nat)
    requires
        x > 0,
        w > 0,
    ensures
        0 <= x / pow2(w) < x,
        pow2(w) > 1,
{
    lemma_pow2_strictly_increases(0, w);
    lemma2_to64();
    lemma_div_decreases(x as int, pow2(w) as int);
}

/// The `n` low words of `x`, `w` bits each, least significant first.
pub open spec fn low_chunks(x: nat, w: nat, n: nat) -> Seq<nat>
    decreases n,
{
    if n == 0 {
        Seq::empty()
    } else {
        seq![x % pow2(w)] + low_chunks(x / pow2(w), w, (n - 1) as nat)
    }
}

/// The number that `words` spell, most significant word first.
pub open spec fn assemble(words: Seq<nat>, w: nat) -> nat
    decreases words.len(),
{
    if words.len() == 0 {
        0
    } else {
        assemble(words.drop_last(), w) * pow2(w) + words.last()
    }
}

/// Number of words of `w` bits that hold `bit_count` bits.
pub open spec fn words_for_bits(bit_count: nat, w: nat) -> nat {
    if w == 0 {
        0
    } else {
        ((bit_count + w - 1) / w as int) as nat
    }
}

/// Number of words of `w` bits that it takes to fill a state of `s` bits.
pub open spec fn words_per_state(w: nat, s: nat) -> nat {
    words_for_bits(s, w)
}

/// The compressed representation of a coder.
pub open spec fn compressed(v: AnsState, w: nat) -> Seq<nat> {
    v.bulk + chunks(v.state, w)
}

/// Takes words off the end of the bulk and puts them under the state, until the state
/// reaches the threshold or the bulk is empty.
pub open spec fn absorb(v: AnsState, w: nat, s: nat) -> AnsState
    decreases v.bulk.len(),
{
    if v.bulk.len() == 0 || v.state >= crate::rans::threshold(w, s) {
        v
    } else {
        absorb(crate::rans::refill(v, w), w, s)
    }
}

/// Whether `words` can be the compressed representation of a coder: it does not end
/// in a zero word.
pub open spec fn is_compressed(words: Seq<nat>) -> bool {
    words.len() == 0 || words.last() != 0
}

/// The coder with the compressed representation `words`.
pub open spec fn from_compressed(words: Seq<nat>, w: nat, s: nat) -> AnsState {
    absorb(AnsState { bulk: words, state: 0 }, w, s)
}

/// The coder that holds the arbitrary `words` below a single one bit.
pub open spec fn from_binary(words: Seq<nat>, w: nat, s: nat) -> AnsState {
    absorb(AnsState { bulk: words, state: 1 }, w, s)
}

/// Number of bits of the state below its most significant one bit.
pub open spec fn valid_bits(state: nat) -> nat
    recommends
        state > 0,
{
    (crate::bit_array::bit_length(state) - 1) as nat
}

/// Whether the state holds a whole number of words below its most significant one
/// bit.
pub open spec fn is_sealed(state: nat, w: nat) -> bool {
    state > 0 && w > 0 && valid_bits(state) % w == 0
}

/// The words that a sealed coder holds below the most significant one bit of its
/// state.
pub open spec fn binary(v: AnsState, w: nat) -> Seq<nat>
    recommends
        is_sealed(v.state, w),
{
    v.bulk + low_chunks(
        (v.state - pow2(valid_bits(v.state))) as nat,
        w,
        valid_bits(v.state) / w,
    )
}

/// Every word of `chunks(x, w)` has `w` bits.
pub proof fn lemma_chunks_in_range(x: nat, w: nat)
    ensures
        forall|i: int| 0 <= i < chunks(x, w).len() ==> #[trigger] chunks(x, w)[i] < pow2(w),
    decreases x,
{
    if x != 0 && w != 0 {
        lemma_shift_decreases(x, w);
        lemma_chunks_in_range(x / pow2(w), w);
        let rest = chunks(x / pow2(w), w);
        assert forall|i: int| 0 <= i < chunks(x, w).len() implies #[trigger] chunks(x, w)[i]
            < pow2(w) by {
            if i > 0 {
                assert(chunks(x, w)[i] == rest[i - 1]);
            }
        }
    }
}

/// The words of a positive number end in a word that is not zero.
pub proof fn lemma_chunks_last_is_not_zero(x: nat, w: nat)
    requires
        x > 0,
        w > 0,
    ensures
        chunks(x, w).len() > 0,
        chunks(x, w).last() != 0,
    decreases x,
{
    lemma_shift_decreases(x, w);
    let high = x / pow2(w);
    if high > 0 {
        lemma_chunks_last_is_not_zero(high, w);
    } else {
        crate::rans::lemma_div_mod_split(x, pow2(w));
        assert(high * pow2(w) == 0) by (nonlinear_arith)
            requires
                high == 0,
        ;
    }
}

/// Putting `w` bits under a positive number adds `w` to its bit length.
pub proof fn lemma_bit_length_of_shifted(x: nat, w: nat, low: nat)
    requires
        x > 0,
        low < pow2(w),
    ensures
        crate::bit_array::bit_length(x * pow2(w) + low) == crate::bit_array::bit_length(x) + w,
{
    let n = crate::bit_array::bit_length(x);
    crate::bit_array::lemma_bit_length_bounds(x);
    crate::rans::lemma_pow2_product((n - 1) as nat, w);
    crate::rans::lemma_pow2_product(n, w);
    let m = pow2(w);
    let lower = pow2((n - 1) as nat);
    let upper = pow2(n);
    assert(lower * m <= x * m + low < upper * m) by (nonlinear_arith)
        requires
            lower <= x < upper,
            low < m,
    ;
    crate::bit_array::lemma_bit_length_unique(x * pow2(w) + low, n + w);
}

/// Dropping the `w` low bits of a number drops `w` from its bit length, but not
/// below zero.
pub proof fn lemma_bit_length_of_quotient(x: nat, w: nat)
    ensures
        crate::bit_array::bit_length(x / pow2(w)) == if crate::bit_array::bit_length(x) >= w {
            crate::bit_array::bit_length(x) - w
        } else {
            0
        },
{
    lemma_pow2_pos(w);
    let high = x / pow2(w);
    crate::rans::lemma_div_mod_split(x, pow2(w));
    if high > 0 {
        lemma_bit_length_of_shifted(high, w, x % pow2(w));
    } else {
        assert(high * pow2(w) == 0) by (nonlinear_arith)
            requires
                high == 0,
        ;
        crate::bit_array::lemma_bit_length_le(x, w);
    }
}

/// A number has as many words as its bits need.
pub proof fn lemma_chunks_len(x: nat, w: nat)
    requires
        w > 0,
    ensures
        chunks(x, w).len() == words_for_bits(crate::bit_array::bit_length(x), w),
    decreases x,
{
    let n = crate::bit_array::bit_length(x);
    if x == 0 {
        lemma_basic_div((w - 1) as int, w as int);
    } else {
        lemma_shift_decreases(x, w);
        let high = x / pow2(w);
        lemma_chunks_len(high, w);
        lemma_bit_length_of_quotient(x, w);
        if n >= w {
            lemma_hoist_over_denominator((n - w + w - 1) as int, 1, w);
        } else {
            lemma_basic_div((n - 1) as int, w as int);
            lemma_hoist_over_denominator((n - 1) as int, 1, w);
        }
    }
}

/// Reading back the words of `x` behind a bulk rebuilds `x` on top of that bulk.
pub proof fn lemma_absorb_chunks(bulk: Seq<nat>, x: nat, w: nat, s: nat)
    requires
        crate::rans::valid_widths(w, s),
        x < pow2(s),
    ensures
        absorb(AnsState { bulk: bulk + chunks(x, w), state: 0 }, w, s) == absorb(
            AnsState { bulk, state: x },
            w,
            s,
        ),
    decreases x,
{
    if x != 0 {
        lemma_shift_decreases(x, w);
        let low = x % pow2(w);
        let high = x / pow2(w);
        crate::rans::lemma_div_mod_split(x, pow2(w));
        crate::rans::lemma_div_pow2_range(x, w, (s - w) as nat);
        lemma_absorb_chunks(bulk.push(low), high, w, s);
        assert(bulk + chunks(x, w) =~= bulk.push(low) + chunks(high, w));
        let pending = AnsState { bulk: bulk.push(low), state: high };
        assert(crate::rans::refill(pending, w).bulk =~= bulk);
    }
}

/// What comes out of `absorb` is well formed, if what goes in is in range.
pub proof fn lemma_absorb_well_formed(v: AnsState, w: nat, s: nat)
    requires
        crate::rans::valid_widths(w, s),
        crate::rans::in_range(v, w, s),
    ensures
        crate::rans::well_formed(absorb(v, w, s), w, s),
    decreases v.bulk.len(),
{
    if !(v.bulk.len() == 0 || v.state >= crate::rans::threshold(w, s)) {
        crate::rans::lemma_refill_in_range(v, w, s);
        lemma_absorb_well_formed(crate::rans::refill(v, w), w, s);
    }
}

/// Reading words back does not change the compressed representation, unless the
/// bulk ends in a zero word under a zero state.
pub proof fn lemma_absorb_keeps_compressed(v: AnsState, w: nat, s: nat)
    requires
        crate::rans::valid_widths(w, s),
        crate::rans::in_range(v, w, s),
        v.state > 0 || is_compressed(v.bulk),
    ensures
        compressed(absorb(v, w, s), w) == compressed(v, w),
    decreases v.bulk.len(),
{
    if !(v.bulk.len() == 0 || v.state >= crate::rans::threshold(w, s)) {
        crate::rans::lemma_refill_in_range(v, w, s);
        lemma_absorb_keeps_compressed(crate::rans::refill(v, w), w, s);
    }
}

/// A refill keeps a sealed coder sealed, with the same binary content.
pub proof fn lemma_refill_keeps_binary(v: AnsState, w: nat)
    requires
        w > 0,
        v.bulk.len() > 0,
        v.bulk.last() < pow2(w),
        is_sealed(v.state, w),
    ensures
        is_sealed(crate::rans::refill(v, w).state, w),
        binary(crate::rans::refill(v, w), w) == binary(v, w),
{
    let after = crate::rans::refill(v, w);
    let k = valid_bits(v.state);
    let word = v.bulk.last();
    let m = pow2(w);
    lemma_bit_length_of_shifted(v.state, w, word);
    crate::bit_array::lemma_bit_length_bounds(v.state);
    lemma_mod_add_multiples_vanish(k as int, w as int);
    crate::rans::lemma_pow2_product(k, w);
    assert(after.state >= pow2(k) * m) by (nonlinear_arith)
        requires
            after.state == v.state * m + word,
            v.state >= pow2(k),
    ;
    let payload = (v.state - pow2(k)) as nat;
    let payload_after = (after.state - pow2(k + w)) as nat;
    assert(payload_after == payload * m + word) by (nonlinear_arith)
        requires
            after.state == v.state * m + word,
            payload == v.state - pow2(k),
            payload_after == after.state - pow2(k + w),
            pow2(k) * m == pow2(k + w),
            v.state >= pow2(k),
    ;
    crate::rans::lemma_div_mod_of_sum(payload, m, word);
    lemma_hoist_over_denominator(k as int, 1, w);
}

/// Reading words back keeps a sealed coder sealed, with the same binary content.
pub proof fn lemma_absorb_keeps_binary(v: AnsState, w: nat, s: nat)
    requires
        crate::rans::valid_widths(w, s),
        crate::rans::in_range(v, w, s),
        is_sealed(v.state, w),
    ensures
        is_sealed(absorb(v, w, s).state, w),
        binary(absorb(v, w, s), w) == binary(v, w),
    decreases v.bulk.len(),
{
    if !(v.bulk.len() == 0 || v.state >= crate::rans::threshold(w, s)) {
        lemma_refill_keeps_binary(v, w);
        crate::rans::lemma_refill_in_range(v, w, s);
        lemma_absorb_keeps_binary(crate::rans::refill(v, w), w, s);
    }
}

} // verus!
