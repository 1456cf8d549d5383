//! The rANS state machine as mathematics.
//!
//! A coder is a pair of a *bulk*, the compressed words that were moved out of the
//! state, and the *state* itself. Words have `w` bits, states have `s >= 2 * w` bits,
//! and probabilities live on the grid `[0, 2^prec]` with `1 <= prec <= w`. Everything
//! here is stated on natural numbers; the executable coder is specified against it.
use vstd::arithmetic::div_mod::*;
use vstd::arithmetic::mul::*;
use vstd::arithmetic::power2::*;
use vstd::prelude::*;

verus! {

/// What a coder holds: the words on the bulk, oldest first, and the state.
pub struct AnsState {
    pub bulk: Seq<nat>,
    pub state: nat,
}

/// The bit widths make sense: words are not empty and a state holds two words.
pub open spec fn valid_widths(w: nat, s: nat) -> bool {
    0 < w && 2 * w <= s
}

/// The precision is positive and fits into a word.
pub open spec fn valid_precision(w: nat, prec: nat) -> bool {
    1 <= prec <= w
}

/// The least state of a coder with a nonempty bulk: `2^(s - w)`.
pub open spec fn threshold(w: nat, s: nat) -> nat {
    pow2((s - w) as nat)
}

/// Every word has `w` bits and the state has `s` bits.
pub open spec fn in_range(v: AnsState, w: nat, s: nat) -> bool {
    &&& v.state < pow2(s)
    &&& forall|i: int| 0 <= i < v.bulk.len() ==> #[trigger] v.bulk[i] < pow2(w)
}

/// The invariant on the state: it reaches the threshold unless the bulk is empty.
pub open spec fn state_invariant(v: AnsState, w: nat, s: nat) -> bool {
    v.bulk.len() == 0 || v.state >= threshold(w, s)
}

/// A coder as the operations leave it.
pub open spec fn well_formed(v: AnsState, w: nat, s: nat) -> bool {
    in_range(v, w, s) && state_invariant(v, w, s)
}

/// The coder that holds no data.
pub open spec fn empty() -> AnsState {
    AnsState { bulk: Seq::empty(), state: 0 }
}

/// A probability `p` and a left-sided cumulative `c` of a symbol that can be encoded.
pub open spec fn valid_interval(prec: nat, c: nat, p: nat) -> bool {
    0 < p && c + p <= pow2(prec)
}

/// Moves the low word of the state onto the bulk.
pub open spec fn flush(v: AnsState, w: nat) -> AnsState {
    AnsState { bulk: v.bulk.push(v.state % pow2(w)), state: v.state / pow2(w) }
}

/// Moves the last word of the bulk back under the state.
pub open spec fn refill(v: AnsState, w: nat) -> AnsState
    recommends
        v.bulk.len() > 0,
{
    AnsState { bulk: v.bulk.drop_last(), state: v.state * pow2(w) + v.bulk.last() }
}

/// Refills once if the state is below the threshold and the bulk has a word left.
pub open spec fn refill_if_necessary(v: AnsState, w: nat, s: nat) -> AnsState {
    if v.state < threshold(w, s) && v.bulk.len() > 0 {
        refill(v, w)
    } else {
        v
    }
}

/// Whether encoding with probability `p` has to flush first: the state would
/// otherwise outgrow its `s` bits.
pub open spec fn needs_flush(state: nat, s: nat, prec: nat, p: nat) -> bool {
    state / pow2((s - prec) as nat) >= p
}

/// The state after a symbol with interval `[c, c + p)` was put on it.
pub open spec fn push_symbol(state: nat, prec: nat, c: nat, p: nat) -> nat {
    (state / p) * pow2(prec) + c + state % p
}

/// The quantile that the next decoded symbol is looked up with.
pub open spec fn quantile(state: nat, prec: nat) -> nat {
    state % pow2(prec)
}

/// The state after the symbol with interval `[c, c + p)` was taken off it.
pub open spec fn pop_symbol(state: nat, prec: nat, c: nat, p: nat) -> nat {
    (state / pow2(prec)) * p + (quantile(state, prec) - c) as nat
}

/// One encoding step with the symbol's interval `[c, c + p)`.
pub open spec fn encode_step(v: AnsState, w: nat, s: nat, prec: nat, c: nat, p: nat) -> AnsState {
    let flushed = if needs_flush(v.state, s, prec, p) {
        flush(v, w)
    } else {
        v
    };
    AnsState { bulk: flushed.bulk, state: push_symbol(flushed.state, prec, c, p) }
}

/// Whether `[c, c + p)` is an interval on the grid that holds the quantile `q`.
pub open spec fn interval_holds(prec: nat, c: nat, p: nat, q: nat) -> bool {
    c <= q < c + p && c + p <= pow2(prec)
}

/// One decoding step, where the model answered the quantile with `[c, c + p)`.
pub open spec fn decode_step(v: AnsState, w: nat, s: nat, prec: nat, c: nat, p: nat) -> AnsState {
    refill_if_necessary(
        AnsState { bulk: v.bulk, state: pop_symbol(v.state, prec, c, p) },
        w,
        s,
    )
}

/// `2^a * 2^b == 2^(a + b)`, and powers of two are positive.
pub proof fn lemma_pow2_product(a: nat, b: nat)
    ensures
        pow2(a) * pow2(b) == pow2(a + b),
        pow2(a) > 0,
        pow2(b) > 0,
{
    lemma_pow2_adds(a, b);
    lemma_pow2_pos(a);
    lemma_pow2_pos(b);
}

/// Powers of two grow with the exponent.
pub proof fn lemma_pow2_monotonic(a: nat, b: nat)
    requires
        a <= b,
    ensures
        pow2(a) <= pow2(b),
{
    if a < b {
        lemma_pow2_strictly_increases(a, b);
    }
}

/// Division by a power of two removes that many bits.
pub proof fn lemma_div_pow2_range(x: nat, a: nat, b: nat)
    ensures
        x < pow2(a + b) <==> x / pow2(a) < pow2(b),
{
    lemma_pow2_product(a, b);
    let d = pow2(a) as int;
    let e = pow2(b) as int;
    lemma_fundamental_div_mod(x as int, d);
    let q = x as int / d;
    let r = x as int % d;
    if q < e {
        assert(d * q + r < d * e) by (nonlinear_arith)
            requires
                0 <= r < d,
                q < e,
        ;
    } else {
        assert(d * q + r >= d * e) by (nonlinear_arith)
            requires
                0 <= r < d,
                q >= e,
        ;
    }
}

/// Quotient and remainder of `q * d + r` for `r < d`.
pub proof fn lemma_div_mod_of_sum(q: nat, d: nat, r: nat)
    requires
        r < d,
    ensures
        (q * d + r) / d == q,
        (q * d + r) % d == r,
{
    lemma_fundamental_div_mod_converse((q * d + r) as int, d as int, q as int, r as int);
}

/// `x == (x / d) * d + x % d` with the remainder below `d`.
pub proof fn lemma_div_mod_split(x: nat, d: nat)
    requires
        d > 0,
    ensures
        x == (x / d) * d + x % d,
        x % d < d,
{
    lemma_fundamental_div_mod(x as int, d as int);
    lemma_mul_is_commutative(d as int, x as int / d as int);
}

/// Taking a symbol off the state undoes putting it on, and the quantile that is seen
/// in between lies in the symbol's interval.
pub proof fn lemma_pop_undoes_push(state: nat, prec: nat, c: nat, p: nat)
    requires
        valid_interval(prec, c, p),
    ensures
        interval_holds(prec, c, p, quantile(push_symbol(state, prec, c, p), prec)),
        quantile(push_symbol(state, prec, c, p), prec) == c + state % p,
        push_symbol(state, prec, c, p) / pow2(prec) == state / p,
        pop_symbol(push_symbol(state, prec, c, p), prec, c, p) == state,
{
    lemma_div_mod_split(state, p);
    lemma_div_mod_of_sum(state / p, pow2(prec), c + state % p);
}

/// Putting a symbol back on the state undoes taking it off.
pub proof fn lemma_push_undoes_pop(state: nat, prec: nat, c: nat, p: nat)
    requires
        interval_holds(prec, c, p, quantile(state, prec)),
    ensures
        pop_symbol(state, prec, c, p) / p == state / pow2(prec),
        pop_symbol(state, prec, c, p) % p == quantile(state, prec) - c,
        push_symbol(pop_symbol(state, prec, c, p), prec, c, p) == state,
{
    lemma_div_mod_split(state, pow2(prec));
    lemma_div_mod_of_sum(state / pow2(prec), p, (quantile(state, prec) - c) as nat);
}

/// A state that needs no flush stays within `s` bits when a symbol is put on it, and
/// does not shrink.
pub proof fn lemma_push_without_flush(state: nat, w: nat, s: nat, prec: nat, c: nat, p: nat)
    requires
        valid_widths(w, s),
        valid_precision(w, prec),
        valid_interval(prec, c, p),
        state < pow2(s),
        !needs_flush(state, s, prec, p),
    ensures
        state / p < pow2((s - prec) as nat),
        state <= push_symbol(state, prec, c, p) < pow2(s),
{
    let d = pow2((s - prec) as nat);
    let m = pow2(prec);
    lemma_pow2_product((s - prec) as nat, prec);
    lemma_div_mod_split(state, d);
    lemma_div_mod_split(state, p);
    let k = state / d;
    let rest = state % d;
    assert(state < p * d) by (nonlinear_arith)
        requires
            state == k * d + rest,
            rest < d,
            k + 1 <= p,
    ;
    lemma_multiply_divide_lt(state as int, p as int, d as int);
    let q = state / p;
    let r = state % p;
    assert(q * m + c + r < d * m) by (nonlinear_arith)
        requires
            q < d,
            c + r < m,
    ;
    assert(q * p <= q * m) by (nonlinear_arith)
        requires
            p <= m,
    ;
}

/// After a flush, the state reaches the threshold again as soon as a symbol is put on
/// it, and stays within `s` bits.
pub proof fn lemma_push_after_flush(state: nat, w: nat, s: nat, prec: nat, c: nat, p: nat)
    requires
        valid_widths(w, s),
        valid_precision(w, prec),
        valid_interval(prec, c, p),
        state < pow2(s),
        needs_flush(state, s, prec, p),
    ensures
        state / pow2(w) < threshold(w, s),
        threshold(w, s) <= push_symbol(state / pow2(w), prec, c, p) < pow2(s),
{
    let e = pow2((s - prec - w) as nat);
    let d = pow2((s - prec) as nat);
    let m = pow2(prec);
    let t = threshold(w, s);
    let low = pow2(w);
    lemma_pow2_product((s - prec - w) as nat, w);
    lemma_pow2_product((s - prec - w) as nat, prec);
    lemma_pow2_product((s - w) as nat, prec);
    lemma_pow2_monotonic((s - w + prec) as nat, s);
    lemma_div_pow2_range(state, w, (s - w) as nat);
    let x = state / low;
    // The state is at least `p * d`, so the flushed state is at least `p * e`.
    lemma_pow2_pos((s - prec) as nat);
    lemma_div_mod_split(state, d);
    let k = state / d;
    let rest = state % d;
    assert(state >= p * e * low) by (nonlinear_arith)
        requires
            state == k * d + rest,
            k >= p,
            d == e * low,
    ;
    lemma_div_is_ordered((p * e * low) as int, state as int, low as int);
    lemma_div_by_multiple((p * e) as int, low as int);
    assert(x >= e * p) by (nonlinear_arith)
        requires
            x >= p * e,
    ;
    lemma_div_is_ordered((e * p) as int, x as int, p as int);
    lemma_div_by_multiple(e as int, p as int);
    let q = x / p;
    let r = x % p;
    lemma_div_mod_split(x, p);
    assert(q * m + c + r >= e * m) by (nonlinear_arith)
        requires
            q >= e,
    ;
    assert(q <= x) by (nonlinear_arith)
        requires
            x == q * p + r,
            p >= 1,
    ;
    assert(q * m + c + r < t * m) by (nonlinear_arith)
        requires
            q < t,
            c + r < m,
    ;
}

/// Encoding keeps a coder well formed.
pub proof fn lemma_encode_step_well_formed(v: AnsState, w: nat, s: nat, prec: nat, c: nat, p: nat)
    requires
        valid_widths(w, s),
        valid_precision(w, prec),
        valid_interval(prec, c, p),
        well_formed(v, w, s),
    ensures
        well_formed(encode_step(v, w, s, prec, c, p), w, s),
{
    let after = encode_step(v, w, s, prec, c, p);
    if needs_flush(v.state, s, prec, p) {
        lemma_push_after_flush(v.state, w, s, prec, c, p);
        lemma_pow2_pos(w);
        assert forall|i: int| 0 <= i < after.bulk.len() implies #[trigger] after.bulk[i] < pow2(
            w,
        ) by {
            if i < v.bulk.len() {
                assert(after.bulk[i] == v.bulk[i]);
            }
        }
    } else {
        lemma_push_without_flush(v.state, w, s, prec, c, p);
    }
}

/// Decoding right after encoding, with the same interval, gives the coder back.
pub proof fn lemma_decode_undoes_encode(v: AnsState, w: nat, s: nat, prec: nat, c: nat, p: nat)
    requires
        valid_widths(w, s),
        valid_precision(w, prec),
        valid_interval(prec, c, p),
        well_formed(v, w, s),
    ensures
        interval_holds(prec, c, p, quantile(encode_step(v, w, s, prec, c, p).state, prec)),
        decode_step(encode_step(v, w, s, prec, c, p), w, s, prec, c, p) == v,
{
    let after = encode_step(v, w, s, prec, c, p);
    if needs_flush(v.state, s, prec, p) {
        lemma_push_after_flush(v.state, w, s, prec, c, p);
        lemma_pop_undoes_push(v.state / pow2(w), prec, c, p);
        lemma_pow2_pos(w);
        lemma_div_mod_split(v.state, pow2(w));
        let popped = AnsState { bulk: after.bulk, state: v.state / pow2(w) };
        assert(refill(popped, w).bulk =~= v.bulk);
    } else {
        lemma_pop_undoes_push(v.state, prec, c, p);
    }
}

/// Taking a symbol off a state of `s` bits leaves a state of `s` bits.
pub proof fn lemma_pop_in_range(state: nat, s: nat, prec: nat, c: nat, p: nat)
    requires
        prec <= s,
        state < pow2(s),
        interval_holds(prec, c, p, quantile(state, prec)),
    ensures
        pop_symbol(state, prec, c, p) < pow2(s),
        state / pow2(prec) < pow2((s - prec) as nat),
{
    let m = pow2(prec);
    let d = pow2((s - prec) as nat);
    lemma_pow2_product(prec, (s - prec) as nat);
    lemma_div_pow2_range(state, prec, (s - prec) as nat);
    let x = state / m;
    let r = (quantile(state, prec) - c) as nat;
    assert(x * p + r < d * m) by (nonlinear_arith)
        requires
            x < d,
            r < p,
            p <= m,
    ;
}

/// Decoding keeps a coder well formed.
pub proof fn lemma_decode_step_well_formed(v: AnsState, w: nat, s: nat, prec: nat, c: nat, p: nat)
    requires
        valid_widths(w, s),
        valid_precision(w, prec),
        well_formed(v, w, s),
        interval_holds(prec, c, p, quantile(v.state, prec)),
    ensures
        well_formed(decode_step(v, w, s, prec, c, p), w, s),
{
    lemma_pop_in_range(v.state, s, prec, c, p);
    let popped = AnsState { bulk: v.bulk, state: pop_symbol(v.state, prec, c, p) };
    let after = decode_step(v, w, s, prec, c, p);
    if popped.state < threshold(w, s) && popped.bulk.len() > 0 {
        lemma_refill_in_range(popped, w, s);
        // The state before decoding reached the threshold, so what is left of it
        // after one refill does so, too.
        let e = pow2((s - w - prec) as nat);
        let m = pow2(prec);
        let low = pow2(w);
        lemma_pow2_product((s - w - prec) as nat, prec);
        lemma_pow2_monotonic(prec, w);
        lemma_div_pow2_range(v.state, prec, (s - w - prec) as nat);
        let x = v.state / m;
        assert(popped.state * low >= e * m) by (nonlinear_arith)
            requires
                popped.state >= x * p,
                x >= e,
                p >= 1,
                low >= m,
                e >= 0,
                m >= 0,
        ;
    }
}

/// A refill of a state below the threshold stays within `s` bits.
pub proof fn lemma_refill_in_range(v: AnsState, w: nat, s: nat)
    requires
        valid_widths(w, s),
        v.bulk.len() > 0,
        v.state < threshold(w, s),
        in_range(v, w, s),
    ensures
        in_range(refill(v, w), w, s),
        refill(v, w).state / pow2(w) == v.state,
        refill(v, w).state % pow2(w) == v.bulk.last(),
{
    let t = threshold(w, s);
    let low = pow2(w);
    lemma_pow2_product((s - w) as nat, w);
    assert(v.state * low + v.bulk.last() < t * low) by (nonlinear_arith)
        requires
            v.state < t,
            v.bulk.last() < low,
    ;
    lemma_div_mod_of_sum(v.state, low, v.bulk.last());
}

/// Every interval of the sequence is one of a symbol that can be encoded.
pub open spec fn valid_intervals(prec: nat, intervals: Seq<(nat, nat)>) -> bool {
    forall|i: int|
        0 <= i < intervals.len() ==> valid_interval(
            prec,
            (#[trigger] intervals[i]).0,
            intervals[i].1,
        )
}

/// The coder after symbols with the given intervals were encoded, the first one
/// first.
pub open spec fn encode_all(
    v: AnsState,
    w: nat,
    s: nat,
    prec: nat,
    intervals: Seq<(nat, nat)>,
) -> AnsState
    decreases intervals.len(),
{
    if intervals.len() == 0 {
        v
    } else {
        encode_step(
            encode_all(v, w, s, prec, intervals.drop_last()),
            w,
            s,
            prec,
            intervals.last().0,
            intervals.last().1,
        )
    }
}

/// The coder after symbols were decoded, where the model answered the quantiles
/// with the given intervals, the first one first.
pub open spec fn decode_all(
    v: AnsState,
    w: nat,
    s: nat,
    prec: nat,
    intervals: Seq<(nat, nat)>,
) -> AnsState
    decreases intervals.len(),
{
    if intervals.len() == 0 {
        v
    } else {
        decode_step(
            decode_all(v, w, s, prec, intervals.drop_last()),
            w,
            s,
            prec,
            intervals.last().0,
            intervals.last().1,
        )
    }
}

/// Whether each of the given intervals holds the quantile of the coder when its
/// turn to be decoded comes.
pub open spec fn decodable(
    v: AnsState,
    w: nat,
    s: nat,
    prec: nat,
    intervals: Seq<(nat, nat)>,
) -> bool
    decreases intervals.len(),
{
    intervals.len() == 0 || (decodable(v, w, s, prec, intervals.drop_last()) && interval_holds(
        prec,
        intervals.last().0,
        intervals.last().1,
        quantile(decode_all(v, w, s, prec, intervals.drop_last()).state, prec),
    ))
}

/// Whether `after` is what encoding `count` symbols makes of `before`.
pub open spec fn encoded(
    before: AnsState,
    after: AnsState,
    w: nat,
    s: nat,
    prec: nat,
    count: nat,
) -> bool {
    exists|intervals: Seq<(nat, nat)>|
        intervals.len() == count && valid_intervals(prec, intervals) && after
            == #[trigger] encode_all(before, w, s, prec, intervals)
}

/// Whether `after` is what decoding `count` symbols makes of `before`.
pub open spec fn decoded(
    before: AnsState,
    after: AnsState,
    w: nat,
    s: nat,
    prec: nat,
    count: nat,
) -> bool {
    exists|intervals: Seq<(nat, nat)>|
        intervals.len() == count && decodable(before, w, s, prec, intervals) && after
            == #[trigger] decode_all(before, w, s, prec, intervals)
}

/// Encoding no symbol leaves the coder as it is.
pub proof fn lemma_encoded_none(v: AnsState, w: nat, s: nat, prec: nat)
    ensures
        encoded(v, v, w, s, prec, 0),
{
    let none = Seq::<(nat, nat)>::empty();
    assert(v == encode_all(v, w, s, prec, none));
}

/// One more encoding step after `count` symbols makes `count + 1` symbols.
pub proof fn lemma_encoded_one_more(
    before: AnsState,
    middle: AnsState,
    w: nat,
    s: nat,
    prec: nat,
    count: nat,
    c: nat,
    p: nat,
)
    requires
        encoded(before, middle, w, s, prec, count),
        valid_interval(prec, c, p),
    ensures
        encoded(before, encode_step(middle, w, s, prec, c, p), w, s, prec, count + 1),
{
    let intervals = choose|intervals: Seq<(nat, nat)>|
        intervals.len() == count && valid_intervals(prec, intervals) && middle
            == #[trigger] encode_all(before, w, s, prec, intervals);
    let more = intervals.push((c, p));
    assert(more.drop_last() =~= intervals);
    assert(encode_step(middle, w, s, prec, c, p) == encode_all(before, w, s, prec, more));
}

/// Decoding no symbol leaves the coder as it is.
pub proof fn lemma_decoded_none(v: AnsState, w: nat, s: nat, prec: nat)
    ensures
        decoded(v, v, w, s, prec, 0),
{
    let none = Seq::<(nat, nat)>::empty();
    assert(v == decode_all(v, w, s, prec, none));
}

/// One more decoding step after `count` symbols makes `count + 1` symbols.
pub proof fn lemma_decoded_one_more(
    before: AnsState,
    middle: AnsState,
    w: nat,
    s: nat,
    prec: nat,
    count: nat,
    c: nat,
    p: nat,
)
    requires
        decoded(before, middle, w, s, prec, count),
        interval_holds(prec, c, p, quantile(middle.state, prec)),
    ensures
        decoded(before, decode_step(middle, w, s, prec, c, p), w, s, prec, count + 1),
{
    let intervals = choose|intervals: Seq<(nat, nat)>|
        intervals.len() == count && decodable(before, w, s, prec, intervals) && middle
            == #[trigger] decode_all(before, w, s, prec, intervals);
    let more = intervals.push((c, p));
    assert(more.drop_last() =~= intervals);
    assert(decode_step(middle, w, s, prec, c, p) == decode_all(before, w, s, prec, more));
}

/// Encoding any number of symbols keeps a coder well formed.
pub proof fn lemma_encode_all_well_formed(
    v: AnsState,
    w: nat,
    s: nat,
    prec: nat,
    intervals: Seq<(nat, nat)>,
)
    requires
        valid_widths(w, s),
        valid_precision(w, prec),
        valid_intervals(prec, intervals),
        well_formed(v, w, s),
    ensures
        well_formed(encode_all(v, w, s, prec, intervals), w, s),
    decreases intervals.len(),
{
    if intervals.len() > 0 {
        lemma_encode_all_well_formed(v, w, s, prec, intervals.drop_last());
        lemma_encode_step_well_formed(
            encode_all(v, w, s, prec, intervals.drop_last()),
            w,
            s,
            prec,
            intervals.last().0,
            intervals.last().1,
        );
    }
}

/// Decoding any number of symbols keeps a coder well formed.
pub proof fn lemma_decode_all_well_formed(
    v: AnsState,
    w: nat,
    s: nat,
    prec: nat,
    intervals: Seq<(nat, nat)>,
)
    requires
        valid_widths(w, s),
        valid_precision(w, prec),
        decodable(v, w, s, prec, intervals),
        well_formed(v, w, s),
    ensures
        well_formed(decode_all(v, w, s, prec, intervals), w, s),
    decreases intervals.len(),
{
    if intervals.len() > 0 {
        lemma_decode_all_well_formed(v, w, s, prec, intervals.drop_last());
        lemma_decode_step_well_formed(
            decode_all(v, w, s, prec, intervals.drop_last()),
            w,
            s,
            prec,
            intervals.last().0,
            intervals.last().1,
        );
    }
}

/// Encoding one sequence of symbols and then another is encoding the two in a row.
pub proof fn lemma_encode_all_in_a_row(
    v: AnsState,
    w: nat,
    s: nat,
    prec: nat,
    first: Seq<(nat, nat)>,
    second: Seq<(nat, nat)>,
)
    ensures
        encode_all(encode_all(v, w, s, prec, first), w, s, prec, second) == encode_all(
            v,
            w,
            s,
            prec,
            first + second,
        ),
    decreases second.len(),
{
    if second.len() == 0 {
        assert(first + second =~= first);
    } else {
        lemma_encode_all_in_a_row(v, w, s, prec, first, second.drop_last());
        assert((first + second).drop_last() =~= first + second.drop_last());
    }
}

/// Symbols that are encoded after others add up: what `more` symbols make of what
/// `count` symbols made is what `count + more` symbols make.
pub proof fn lemma_encoded_more(
    before: AnsState,
    middle: AnsState,
    after: AnsState,
    w: nat,
    s: nat,
    prec: nat,
    count: nat,
    more: nat,
)
    requires
        encoded(before, middle, w, s, prec, count),
        encoded(middle, after, w, s, prec, more),
    ensures
        encoded(before, after, w, s, prec, count + more),
{
    let first = choose|intervals: Seq<(nat, nat)>|
        intervals.len() == count && valid_intervals(prec, intervals) && middle
            == #[trigger] encode_all(before, w, s, prec, intervals);
    let second = choose|intervals: Seq<(nat, nat)>|
        intervals.len() == more && valid_intervals(prec, intervals) && after
            == #[trigger] encode_all(middle, w, s, prec, intervals);
    lemma_encode_all_in_a_row(before, w, s, prec, first, second);
    assert(valid_intervals(prec, first + second)) by {
        assert forall|i: int| 0 <= i < (first + second).len() implies valid_interval(
            prec,
            (#[trigger] (first + second)[i]).0,
            (first + second)[i].1,
        ) by {
            if i < first.len() {
                assert((first + second)[i] == first[i]);
            } else {
                assert((first + second)[i] == second[i - first.len()]);
            }
        }
    }
    assert(after == encode_all(before, w, s, prec, first + second));
}

} // verus!
