//! Unsigned integers of a fixed bit width, seen as natural numbers.
//!
//! A [`BitArray`] is an unsigned integer type of 8, 16, 32 or 64 bits. Compressed
//! words and coder states are both `BitArray`s; all arithmetic on them is specified
//! over [`BitArray::value`], the number that the bits represent.
use vstd::arithmetic::div_mod::*;
use vstd::arithmetic::power2::*;
use vstd::bits::*;
use vstd::prelude::*;

verus! {

/// Number of binary digits of `x`, without leading zeros: `0` for `x == 0`, else the
/// unique `n` with `2^(n-1) <= x < 2^n`.
pub open spec fn bit_length(x: nat) -> nat
    decreases x,
{
    if x == 0 {
        0
    } else {
        1 + bit_length(x / 2)
    }
}

/// `x` lies strictly below `2^bit_length(x)`, and a positive `x` reaches
/// `2^(bit_length(x) - 1)`.
pub proof fn lemma_bit_length_bounds(x: nat)
    ensures
        x < pow2(bit_length(x)),
        x > 0 ==> bit_length(x) > 0 && pow2((bit_length(x) - 1) as nat) <= x,
    decreases x,
{
    lemma2_to64();
    if x > 0 {
        lemma_bit_length_bounds(x / 2);
        lemma_pow2_unfold(bit_length(x));
        if x / 2 > 0 {
            lemma_pow2_unfold((bit_length(x) - 1) as nat);
        }
    }
}

/// The bit length is the only `n` with `2^(n-1) <= x < 2^n`.
pub proof fn lemma_bit_length_unique(x: nat, n: nat)
    requires
        n > 0,
        pow2((n - 1) as nat) <= x < pow2(n),
    ensures
        bit_length(x) == n,
{
    lemma_bit_length_bounds(x);
    let m = bit_length(x);
    if m < n {
        if m < n - 1 {
            lemma_pow2_strictly_increases(m, (n - 1) as nat);
        }
    } else if m > n {
        if n < m - 1 {
            lemma_pow2_strictly_increases(n, (m - 1) as nat);
        }
    }
}

/// A number below `2^n` has at most `n` binary digits, and conversely.
pub proof fn lemma_bit_length_le(x: nat, n: nat)
    ensures
        x < pow2(n) <==> bit_length(x) <= n,
{
    lemma_bit_length_bounds(x);
    let m = bit_length(x);
    if m < n {
        lemma_pow2_strictly_increases(m, n);
    }
    if x > 0 && n < m {
        if n < m - 1 {
            lemma_pow2_strictly_increases(n, (m - 1) as nat);
        }
    }
}

/// An unsigned integer type of fixed width that embeds into `u64`.
pub trait BitArray: Copy + Sized {
    /// The width of the type in bits.
    spec fn bits() -> nat;

    /// The natural number that `self` represents.
    spec fn value(self) -> nat;

    /// The width is one of 8, 16, 32 and 64.
    proof fn lemma_bits()
        ensures
            Self::bits() == 8 || Self::bits() == 16 || Self::bits() == 32 || Self::bits() == 64,
    ;

    /// Every value fits into `bits()` binary digits.
    proof fn lemma_value_in_range(x: Self)
        ensures
            x.value() < pow2(Self::bits()),
    ;

    /// Two bit arrays that represent the same number are equal.
    proof fn lemma_value_is_injective(a: Self, b: Self)
        requires
            a.value() == b.value(),
        ensures
            a == b,
    ;

    /// The width of the type in bits.
    fn width() -> (r: usize)
        ensures
            r == Self::bits(),
    ;

    /// Lossless conversion into the widest supported type.
    fn to_u64(self) -> (r: u64)
        ensures
            r == self.value(),
    ;

    /// Keeps the low `bits()` binary digits of `x`.
    fn from_u64_truncated(x: u64) -> (r: Self)
        ensures
            r.value() == x as nat % pow2(Self::bits()),
    ;
}

impl BitArray for u8 {
    open spec fn bits() -> nat {
        8
    }

    open spec fn value(self) -> nat {
        self as nat
    }

    proof fn lemma_bits() {
    }

    proof fn lemma_value_in_range(x: Self) {
        lemma2_to64();
    }

    proof fn lemma_value_is_injective(a: Self, b: Self) {
    }

    fn width() -> usize {
        8
    }

    fn to_u64(self) -> u64 {
        self as u64
    }

    fn from_u64_truncated(x: u64) -> Self {
        proof {
            lemma2_to64();
            assert(x as u8 == x % 0x100) by (bit_vector);
        }
        #[verifier::truncate]
        (x as u8)
    }
}

impl BitArray for u16 {
    open spec fn bits() -> nat {
        16
    }

    open spec fn value(self) -> nat {
        self as nat
    }

    proof fn lemma_bits() {
    }

    proof fn lemma_value_in_range(x: Self) {
        lemma2_to64();
    }

    proof fn lemma_value_is_injective(a: Self, b: Self) {
    }

    fn width() -> usize {
        16
    }

    fn to_u64(self) -> u64 {
        self as u64
    }

    fn from_u64_truncated(x: u64) -> Self {
        proof {
            lemma2_to64();
            assert(x as u16 == x % 0x1_0000) by (bit_vector);
        }
        #[verifier::truncate]
        (x as u16)
    }
}

impl BitArray for u32 {
    open spec fn bits() -> nat {
        32
    }

    open spec fn value(self) -> nat {
        self as nat
    }

    proof fn lemma_bits() {
    }

    proof fn lemma_value_in_range(x: Self) {
        lemma2_to64();
    }

    proof fn lemma_value_is_injective(a: Self, b: Self) {
    }

    fn width() -> usize {
        32
    }

    fn to_u64(self) -> u64 {
        self as u64
    }

    fn from_u64_truncated(x: u64) -> Self {
        proof {
            lemma2_to64();
            assert(x as u32 == x % 0x1_0000_0000) by (bit_vector);
        }
        #[verifier::truncate]
        (x as u32)
    }
}

impl BitArray for u64 {
    open spec fn bits() -> nat {
        64
    }

    open spec fn value(self) -> nat {
        self as nat
    }

    proof fn lemma_bits() {
    }

    proof fn lemma_value_in_range(x: Self) {
        lemma2_to64();
    }

    proof fn lemma_value_is_injective(a: Self, b: Self) {
    }

    fn width() -> usize {
        64
    }

    fn to_u64(self) -> u64 {
        self
    }

    fn from_u64_truncated(x: u64) -> Self {
        proof {
            lemma2_to64();
            lemma_small_mod(x as nat, pow2(64));
        }
        x
    }
}

/// `2^n` as a machine word.
pub fn pow2_u64(n: usize) -> (r: u64)
    requires
        n < 64,
    ensures
        r == pow2(n as nat),
{
    proof {
        lemma_u64_pow2_no_overflow(n as nat);
        lemma_u64_shl_is_mul(1, n as u64);
    }
    1u64 << (n as u64)
}

/// `x / 2^n` by a right shift.
pub fn shr_u64(x: u64, n: usize) -> (r: u64)
    requires
        n < 64,
    ensures
        r == x as nat / pow2(n as nat),
{
    proof {
        lemma_u64_shr_is_div(x, n as u64);
    }
    x >> (n as u64)
}

/// `x * 2^n` by a left shift that loses no bit.
pub fn shl_u64(x: u64, n: usize) -> (r: u64)
    requires
        n < 64,
        x * pow2(n as nat) <= u64::MAX,
    ensures
        r == x * pow2(n as nat),
{
    proof {
        lemma_u64_shl_is_mul(x, n as u64);
    }
    x << (n as u64)
}

/// Number of binary digits of `x` without its leading zeros.
pub fn bit_length_u64(x: u64) -> (r: usize)
    ensures
        r == bit_length(x as nat),
        r <= 64,
{
    let zeros: u32 = x.leading_zeros();
    proof {
        vstd::std_specs::bits::axiom_u64_leading_zeros(x);
        let z = vstd::std_specs::bits::u64_leading_zeros(x);
        if x != 0 {
            let top = (63 - z) as u64;
            let y = x >> top;
            assert(y >= 1) by (bit_vector)
                requires
                    y & 1u64 != 0u64,
            ;
            lemma_u64_shr_is_div(x, top);
            lemma_pow2_pos(top as nat);
            lemma_fundamental_div_mod(x as int, pow2(top as nat) as int);
            assert(pow2(top as nat) <= x) by (nonlinear_arith)
                requires
                    x as int == pow2(top as nat) * (x as int / pow2(top as nat) as int) + (x as int
                        % pow2(top as nat) as int),
                    x as int % pow2(top as nat) as int >= 0,
                    x as int / pow2(top as nat) as int >= 1,
                    pow2(top as nat) > 0,
            ;
            if z > 0 {
                let above = (64 - z) as u64;
                lemma_u64_shr_is_div(x, above);
                lemma_pow2_pos(above as nat);
                lemma_fundamental_div_mod(x as int, pow2(above as nat) as int);
            } else {
                lemma2_to64();
            }
            lemma_bit_length_unique(x as nat, (64 - z) as nat);
        }
    }
    64 - zeros as usize
}

/// `x / 2^n` for any `n` up to the width of `x`.
pub fn shr_bits(x: u64, n: usize) -> (r: u64)
    requires
        n <= 64,
    ensures
        r == x as nat / pow2(n as nat),
{
    if n >= 64 {
        proof {
            lemma2_to64();
        }
        0
    } else {
        shr_u64(x, n)
    }
}

/// `x % 2^n` for any `n` up to the width of `x`.
pub fn low_bits(x: u64, n: usize) -> (r: u64)
    requires
        n <= 64,
    ensures
        r == x as nat % pow2(n as nat),
{
    if n >= 64 {
        proof {
            lemma2_to64();
        }
        x
    } else {
        proof {
            lemma_pow2_pos(n as nat);
        }
        x % pow2_u64(n)
    }
}

/// The bit array of type `T` that represents `x`.
pub fn from_u64<T: BitArray>(x: u64) -> (r: T)
    requires
        x < pow2(T::bits()),
    ensures
        r.value() == x,
{
    proof {
        lemma_small_mod(x as nat, pow2(T::bits()));
    }
    T::from_u64_truncated(x)
}

/// The bit array that represents zero.
pub fn zero<T: BitArray>() -> (r: T)
    ensures
        r.value() == 0,
{
    proof {
        lemma_pow2_pos(T::bits());
    }
    from_u64(0)
}

/// The bit array that represents one.
pub fn one<T: BitArray>() -> (r: T)
    ensures
        r.value() == 1,
{
    proof {
        T::lemma_bits();
        lemma2_to64();
    }
    from_u64(1)
}

/// The numbers that the words represent.
pub open spec fn values<W: BitArray>(words: Seq<W>) -> Seq<nat> {
    Seq::new(words.len(), |i: int| words[i].value())
}

/// Words are told apart by the numbers that they represent.
pub proof fn lemma_values_is_injective<W: BitArray>(a: Seq<W>, b: Seq<W>)
    requires
        values(a) == values(b),
    ensures
        a == b,
{
    assert(a.len() == values(a).len());
    assert forall|i: int| 0 <= i < a.len() implies a[i] == b[i] by {
        assert(values(a)[i] == a[i].value());
        W::lemma_value_is_injective(a[i], b[i]);
    }
}

/// The numbers that words represent are below `2^bits`.
pub proof fn lemma_values_in_range<W: BitArray>(words: Seq<W>)
    ensures
        forall|i: int|
            0 <= i < values(words).len() ==> #[trigger] values(words)[i] < pow2(W::bits()),
{
    assert forall|i: int| 0 <= i < values(words).len() implies #[trigger] values(words)[i] < pow2(
        W::bits(),
    ) by {
        W::lemma_value_in_range(words[i]);
    }
}

/// Splits `data` into words, least significant word first, up to and including the
/// most significant word that is not zero.
pub fn bit_array_to_chunks_truncated<S: BitArray, W: BitArray>(data: S) -> (chunks: Vec<W>)
    ensures
        values(chunks@) == crate::format::chunks(data.value(), W::bits()),
        chunks@.len() == crate::format::words_for_bits(bit_length(data.value()), W::bits()),
{
    proof {
        W::lemma_bits();
        crate::format::lemma_chunks_len(data.value(), W::bits());
    }
    let width = W::width();
    let mut rest: u64 = data.to_u64();
    let mut chunks: Vec<W> = Vec::new();
    while rest != 0
        invariant
            width == W::bits(),
            0 < width <= 64,
            values(chunks@) + crate::format::chunks(rest as nat, W::bits())
                == crate::format::chunks(data.value(), W::bits()),
        decreases rest,
    {
        let word = W::from_u64_truncated(rest);
        chunks.push(word);
        proof {
            crate::format::lemma_shift_decreases(rest as nat, W::bits());
        }
        rest = shr_bits(rest, width);
    }
    chunks
}

/// Assembles a bit array from the first words of `chunks`, most significant word
/// first: from as many words as it takes to fill the bit array, if there are that
/// many. Bits that the bit array has no room for are dropped.
pub fn bit_array_from_chunks<W: BitArray, S: BitArray>(chunks: &[W]) -> (data: S)
    ensures
        data.value() == crate::format::assemble(
            values(
                chunks@.take(
                    if chunks@.len() <= crate::format::words_per_state(W::bits(), S::bits()) {
                        chunks@.len() as int
                    } else {
                        crate::format::words_per_state(W::bits(), S::bits()) as int
                    },
                ),
            ),
            W::bits(),
        ) % pow2(S::bits()),
{
    proof {
        W::lemma_bits();
        S::lemma_bits();
    }
    let width = W::width();
    let state_width = S::width();
    let count = (state_width + width - 1) / width;
    let amt = if chunks.len() <= count {
        chunks.len()
    } else {
        count
    };
    let mut acc: u64 = 0;
    let mut i: usize = 0;
    proof {
        lemma_pow2_pos(0);
        assert(values(chunks@.take(0)) =~= Seq::<nat>::empty());
        assert(0 * W::bits() == 0) by (nonlinear_arith);
        // Both widths are powers of two: the words fill the bit array exactly, or
        // one word is more than enough.
        if width == 8 {
            assert(count * 8 <= 64);
        } else if width == 16 {
            assert(count * 16 <= 64);
        } else if width == 32 {
            assert(count * 32 <= 64);
        } else {
            assert(count == (state_width + 63) / 64);
        }
    }
    while i < amt
        invariant
            width == W::bits(),
            width == 8 || width == 16 || width == 32 || width == 64,
            count == crate::format::words_per_state(W::bits(), S::bits()),
            count * width <= 64,
            amt <= count,
            amt <= chunks@.len(),
            i <= amt,
            acc == crate::format::assemble(values(chunks@.take(i as int)), W::bits()),
            acc < pow2(i as nat * W::bits()),
        decreases amt - i,
    {
        let word = chunks[i];
        let ghost before = values(chunks@.take(i as int));
        proof {
            let now = values(chunks@.take(i + 1));
            assert(now.drop_last() =~= before);
            W::lemma_value_in_range(word);
            crate::rans::lemma_pow2_product(i as nat * W::bits(), W::bits());
            assert(i as nat * W::bits() + W::bits() == (i + 1) as nat * W::bits())
                by (nonlinear_arith);
            assert((i + 1) as nat * W::bits() <= count * width) by (nonlinear_arith)
                requires
                    i + 1 <= count,
                    width == W::bits(),
            ;
            crate::rans::lemma_pow2_monotonic((i + 1) as nat * W::bits(), 64);
            lemma2_to64();
            assert(acc * pow2(W::bits()) + word.value() < pow2(i as nat * W::bits()) * pow2(
                W::bits(),
            )) by (nonlinear_arith)
                requires
                    acc < pow2(i as nat * W::bits()),
                    word.value() < pow2(W::bits()),
            ;
        }
        if width >= 64 {
            // A word fills the bit array: there is nothing to shift.
            assert(i == 0) by (nonlinear_arith)
                requires
                    (i + 1) as nat * W::bits() <= 64,
                    W::bits() == 64,
            ;
            assert(acc * pow2(W::bits()) == 0) by (nonlinear_arith)
                requires
                    acc == 0,
            ;
            acc = word.to_u64();
        } else {
            acc = shl_u64(acc, width) + word.to_u64();
        }
        i += 1;
    }
    S::from_u64_truncated(acc)
}

} // verus!
