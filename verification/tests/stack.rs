use constriction::backends::{ReadCursorBackward, ReadCursorForward, ReadStackBackend};
use constriction::bit_array::BitArray;
use constriction::models::{DecoderModel, EncoderModel};
use constriction::stack::{AnsCoder, DefaultAnsCoder, SmallAnsCoder};
use constriction::{EncodingError, TryCodingError};
use rand_xoshiro::rand_core::{Rng, SeedableRng};
use rand_xoshiro::Xoshiro256StarStar;
use statrs::distribution::{ContinuousCDF, Normal};

/// A categorical distribution over the symbols `0..n`, in fixed point arithmetic.
struct Categorical<const PRECISION: usize> {
    /// `cdf[i]` is the left-sided cumulative of symbol `i`; the last entry is the total.
    cdf: Vec<u64>,
}

impl<const PRECISION: usize> Categorical<PRECISION> {
    /// Gives every symbol a probability of at least one unit, and shares out the
    /// rest in proportion to `probabilities`.
    fn from_floating_point_probabilities(probabilities: &[f64]) -> Result<Self, ()> {
        let total = 1u64 << PRECISION;
        let len = probabilities.len() as u64;
        if len < 2 || len > total || probabilities.iter().any(|&p| !(p >= 0.0)) {
            return Err(());
        }
        let sum: f64 = probabilities.iter().sum();
        if !(sum > 0.0) {
            return Err(());
        }
        let free = total - len;
        let mut weights: Vec<u64> = probabilities
            .iter()
            .map(|&p| 1 + ((p / sum) * free as f64) as u64)
            .collect();
        let mut assigned: u64 = weights.iter().sum();
        // Rounding down may leave a few units: the most probable symbols get them.
        let mut order: Vec<usize> = (0..weights.len()).collect();
        order.sort_by(|&a, &b| probabilities[b].partial_cmp(&probabilities[a]).unwrap());
        let mut next = 0;
        while assigned < total {
            weights[order[next % order.len()]] += 1;
            assigned += 1;
            next += 1;
        }
        while assigned > total {
            let index = order[next % order.len()];
            if weights[index] > 1 {
                weights[index] -= 1;
                assigned -= 1;
            }
            next += 1;
        }
        let mut cdf = Vec::with_capacity(weights.len() + 1);
        let mut accumulated = 0;
        cdf.push(0);
        for weight in weights {
            accumulated += weight;
            cdf.push(accumulated);
        }
        Ok(Self { cdf })
    }

    /// The model with the given left-sided cumulatives, which end in the total.
    fn from_cdf(cdf: Vec<u64>) -> Self {
        assert_eq!(cdf[0], 0);
        assert_eq!(*cdf.last().unwrap(), 1u64 << PRECISION);
        Self { cdf }
    }

    fn interval(&self, symbol: usize) -> Option<(u64, u64)> {
        if symbol + 1 < self.cdf.len() {
            Some((self.cdf[symbol], self.cdf[symbol + 1] - self.cdf[symbol]))
        } else {
            None
        }
    }

    fn symbol_at(&self, quantile: u64) -> (usize, u64, u64) {
        let symbol = self.cdf.partition_point(|&c| c <= quantile) - 1;
        (symbol, self.cdf[symbol], self.cdf[symbol + 1] - self.cdf[symbol])
    }
}

impl<W: BitArray, const PRECISION: usize> EncoderModel<W, PRECISION> for Categorical<PRECISION> {
    type Symbol = usize;

    fn left_cumulative_and_probability(&self, symbol: &usize) -> Result<(W, W), ()> {
        let (c, p) = self.interval(*symbol).ok_or(())?;
        Ok((W::from_u64_truncated(c), W::from_u64_truncated(p)))
    }
}

impl<W: BitArray, const PRECISION: usize> DecoderModel<W, PRECISION> for Categorical<PRECISION> {
    type Symbol = usize;

    fn quantile_function(&self, quantile: W) -> (usize, W, W) {
        let (symbol, c, p) = self.symbol_at(quantile.to_u64());
        (symbol, W::from_u64_truncated(c), W::from_u64_truncated(p))
    }
}

/// Turns continuous distributions into distributions over the integers of a range,
/// such that every integer of the range has a nonzero probability.
#[derive(Clone, Copy)]
struct LeakyQuantizer<const PRECISION: usize> {
    min: i32,
    max: i32,
    free_weight: f64,
}

impl<const PRECISION: usize> LeakyQuantizer<PRECISION> {
    fn new(min: i32, max: i32) -> Self {
        let support_size_minus_one = (max - min) as u64;
        let max_probability = (1u64 << PRECISION) - 1;
        let free_weight = (max_probability - support_size_minus_one) as f64;
        Self { min, max, free_weight }
    }

    fn quantize(&self, distribution: Normal) -> QuantizedGaussian<PRECISION> {
        QuantizedGaussian { quantizer: *self, distribution }
    }
}

#[derive(Clone, Copy)]
struct QuantizedGaussian<const PRECISION: usize> {
    quantizer: LeakyQuantizer<PRECISION>,
    distribution: Normal,
}

impl<const PRECISION: usize> QuantizedGaussian<PRECISION> {
    fn left_cumulative(&self, symbol: i32) -> u64 {
        if symbol == self.quantizer.min {
            0
        } else {
            let slack = (symbol - self.quantizer.min) as u64;
            let non_leaky =
                (self.quantizer.free_weight * self.distribution.cdf(symbol as f64 - 0.5)) as u64;
            non_leaky + slack
        }
    }

    fn right_cumulative(&self, symbol: i32) -> u64 {
        if symbol == self.quantizer.max {
            1u64 << PRECISION
        } else {
            let slack = (symbol - self.quantizer.min) as u64;
            let non_leaky =
                (self.quantizer.free_weight * self.distribution.cdf(symbol as f64 + 0.5)) as u64;
            non_leaky + slack + 1
        }
    }

    fn interval(&self, symbol: i32) -> Option<(u64, u64)> {
        if symbol < self.quantizer.min || symbol > self.quantizer.max {
            return None;
        }
        let left = self.left_cumulative(symbol);
        Some((left, self.right_cumulative(symbol) - left))
    }

    fn symbol_at(&self, quantile: u64) -> (i32, u64, u64) {
        let mut low = self.quantizer.min;
        let mut high = self.quantizer.max;
        while low < high {
            let middle = low + (high - low + 1) / 2;
            if self.left_cumulative(middle) <= quantile {
                low = middle;
            } else {
                high = middle - 1;
            }
        }
        let (c, p) = self.interval(low).unwrap();
        (low, c, p)
    }
}

impl<W: BitArray, const PRECISION: usize> EncoderModel<W, PRECISION>
    for QuantizedGaussian<PRECISION>
{
    type Symbol = i32;

    fn left_cumulative_and_probability(&self, symbol: &i32) -> Result<(W, W), ()> {
        let (c, p) = self.interval(*symbol).ok_or(())?;
        Ok((W::from_u64_truncated(c), W::from_u64_truncated(p)))
    }
}

impl<W: BitArray, const PRECISION: usize> DecoderModel<W, PRECISION>
    for QuantizedGaussian<PRECISION>
{
    type Symbol = i32;

    fn quantile_function(&self, quantile: W) -> (i32, W, W) {
        let (symbol, c, p) = self.symbol_at(quantile.to_u64());
        (symbol, W::from_u64_truncated(c), W::from_u64_truncated(p))
    }
}

#[test]
fn compress_none() {
    let coder1 = DefaultAnsCoder::new();
    assert!(coder1.is_empty());
    let compressed = coder1.into_compressed();
    assert!(compressed.is_empty());

    let coder2 = DefaultAnsCoder::from_compressed(compressed).unwrap();
    assert!(coder2.is_empty());
}

#[test]
fn compress_one() {
    generic_compress_few(vec![5], 1)
}

#[test]
fn compress_two() {
    generic_compress_few(vec![2, 8], 1)
}

#[test]
fn compress_ten() {
    generic_compress_few((0..10).collect(), 2)
}

#[test]
fn compress_twenty() {
    generic_compress_few((-10..10).collect(), 4)
}

fn generic_compress_few(symbols: Vec<i32>, expected_size: usize) {
    let mut encoder = DefaultAnsCoder::new();
    let quantizer = LeakyQuantizer::<24>::new(-127, 127);
    let model = quantizer.quantize(Normal::new(3.2, 5.1).unwrap());

    // We don't reuse the same encoder for decoding because we want to test
    // if exporting and re-importing of compressed data works.
    encoder.encode_iid_symbols::<_, 24>(&symbols, &model).unwrap();
    let compressed = encoder.into_compressed();
    assert_eq!(compressed.len(), expected_size);

    let mut decoder = DefaultAnsCoder::from_compressed(compressed).unwrap();
    for &symbol in symbols.iter().rev() {
        assert_eq!(decoder.decode_symbol::<_, 24>(&model), symbol);
    }
    assert!(decoder.is_empty());
}

#[test]
fn compress_many_u32_u64_32() {
    generic_compress_many::<u32, u64, 32, 32>();
}

#[test]
fn compress_many_u32_u64_24() {
    generic_compress_many::<u32, u64, 32, 24>();
}

#[test]
fn compress_many_u32_u64_16() {
    generic_compress_many::<u32, u64, 16, 16>();
}

#[test]
fn compress_many_u16_u64_16() {
    generic_compress_many::<u16, u64, 16, 16>();
}

#[test]
fn compress_many_u32_u64_8() {
    generic_compress_many::<u32, u64, 8, 8>();
}

#[test]
fn compress_many_u16_u64_8() {
    generic_compress_many::<u16, u64, 8, 8>();
}

#[test]
fn compress_many_u8_u64_8() {
    generic_compress_many::<u8, u64, 8, 8>();
}

#[test]
fn compress_many_u16_u32_16() {
    generic_compress_many::<u16, u32, 16, 16>();
}

#[test]
fn compress_many_u16_u32_8() {
    generic_compress_many::<u16, u32, 8, 8>();
}

#[test]
fn compress_many_u8_u32_8() {
    generic_compress_many::<u8, u32, 8, 8>();
}

/// `PROBABILITY_BITS` is the width of the type that the probabilities are stored in.
fn generic_compress_many<
    CompressedWord,
    State,
    const PROBABILITY_BITS: usize,
    const PRECISION: usize,
>()
where
    State: BitArray,
    CompressedWord: BitArray + core::fmt::Debug,
{
    const AMT: usize = 1000;
    let mut symbols_gaussian = Vec::with_capacity(AMT);
    let mut means = Vec::with_capacity(AMT);
    let mut stds = Vec::with_capacity(AMT);

    let mut rng = Xoshiro256StarStar::seed_from_u64(
        (CompressedWord::width() as u64).rotate_left(3 * 16)
            ^ (State::width() as u64).rotate_left(2 * 16)
            ^ (PROBABILITY_BITS as u64).rotate_left(1 * 16)
            ^ PRECISION as u64,
    );

    for _ in 0..AMT {
        let mean = (200.0 / u32::MAX as f64) * rng.next_u32() as f64 - 100.0;
        let std_dev = (10.0 / u32::MAX as f64) * rng.next_u32() as f64 + 0.001;
        let quantile = (rng.next_u32() as f64 + 0.5) / (1u64 << 32) as f64;
        let dist = Normal::new(mean, std_dev).unwrap();
        let symbol = core::cmp::max(
            -127,
            core::cmp::min(127, dist.inverse_cdf(quantile).round() as i32),
        );

        symbols_gaussian.push(symbol);
        means.push(mean);
        stds.push(std_dev);
    }

    let hist = [
        1u32, 186545, 237403, 295700, 361445, 433686, 509456, 586943, 663946, 737772, 1657269,
        896675, 922197, 930672, 916665, 0, 0, 0, 0, 0, 723031, 650522, 572300, 494702, 418703,
        347600, 1, 283500, 226158, 178194, 136301, 103158, 76823, 55540, 39258, 27988, 54269,
    ];
    let categorical_probabilities = hist.iter().map(|&x| x as f64).collect::<Vec<_>>();
    let categorical =
        Categorical::<PRECISION>::from_floating_point_probabilities(&categorical_probabilities)
            .unwrap();
    let mut symbols_categorical = Vec::with_capacity(AMT);
    let max_probability = u64::MAX >> (64 - PRECISION);
    for _ in 0..AMT {
        let quantile = rng.next_u32() as u64 & max_probability;
        let symbol = categorical.symbol_at(quantile).0;
        symbols_categorical.push(symbol);
    }

    let mut ans = AnsCoder::<CompressedWord, State>::new();

    ans.encode_iid_symbols_reverse::<_, PRECISION>(&symbols_categorical, &categorical)
        .unwrap();

    let quantizer = LeakyQuantizer::<PRECISION>::new(-127, 127);
    let symbols_and_models = symbols_gaussian
        .iter()
        .zip(&means)
        .zip(&stds)
        .map(|((&symbol, &mean), &core)| {
            (symbol, quantizer.quantize(Normal::new(mean, core).unwrap()))
        })
        .collect::<Vec<_>>();
    ans.encode_symbols_reverse::<_, PRECISION>(&symbols_and_models)
        .unwrap();

    // Test if import/export of compressed data works.
    let compressed = ans.into_compressed();
    let mut ans = AnsCoder::<CompressedWord, State>::from_compressed(compressed).unwrap();

    let models = means
        .iter()
        .zip(&stds)
        .map(|(&mean, &core)| quantizer.quantize(Normal::new(mean, core).unwrap()))
        .collect::<Vec<_>>();
    let reconstructed_gaussian = ans.decode_symbols::<_, PRECISION>(&models);
    let reconstructed_categorical = ans.decode_iid_symbols::<_, PRECISION>(AMT, &categorical);

    assert!(ans.is_empty());

    assert_eq!(symbols_gaussian, reconstructed_gaussian);
    assert_eq!(symbols_categorical, reconstructed_categorical);
}

#[test]
fn seek() {
    const NUM_CHUNKS: usize = 100;
    const SYMBOLS_PER_CHUNK: usize = 100;

    let quantizer = LeakyQuantizer::<24>::new(-100, 100);
    let model = quantizer.quantize(Normal::new(0.0, 10.0).unwrap());

    let mut encoder = DefaultAnsCoder::new();

    let mut rng = Xoshiro256StarStar::seed_from_u64(123);
    let mut symbols = Vec::with_capacity(NUM_CHUNKS);
    let mut jump_table = Vec::with_capacity(NUM_CHUNKS);
    let (initial_pos, initial_state) = encoder.pos_and_state();

    for _ in 0..NUM_CHUNKS {
        let chunk = (0..SYMBOLS_PER_CHUNK)
            .map(|_| model.symbol_at((rng.next_u32() % (1 << 24)) as u64).0)
            .collect::<Vec<_>>();
        encoder
            .encode_iid_symbols_reverse::<_, 24>(&chunk, &model)
            .unwrap();
        symbols.push(chunk);
        jump_table.push(encoder.pos_and_state());
    }

    // Test decoding from back to front.
    {
        let mut seekable_decoder = encoder.seekable_decoder();

        // Verify that decoding leads to the same positions and states.
        for (chunk, &(pos, state)) in symbols.iter().zip(&jump_table).rev() {
            assert_eq!(seekable_decoder.pos_and_state(), (pos, state));
            let decoded = seekable_decoder.decode_iid_symbols::<_, 24>(SYMBOLS_PER_CHUNK, &model);
            assert_eq!(&decoded, chunk)
        }
        assert_eq!(
            seekable_decoder.pos_and_state(),
            (initial_pos, initial_state)
        );
        assert!(seekable_decoder.is_empty());

        // Seek to some random offsets in the jump table and decode one chunk
        for _ in 0..100 {
            let chunk_index = rng.next_u32() as usize % NUM_CHUNKS;
            let (pos, state) = jump_table[chunk_index];
            seekable_decoder.seek((pos, state)).unwrap();
            let decoded = seekable_decoder.decode_iid_symbols::<_, 24>(SYMBOLS_PER_CHUNK, &model);
            assert_eq!(&decoded, &symbols[chunk_index])
        }
    }

    // Reverse compressed data, map positions in jump table to reversed positions,
    // and test decoding from front to back.
    let mut compressed = encoder.into_compressed();
    compressed.reverse();
    for (pos, _state) in jump_table.iter_mut() {
        *pos = compressed.len() - *pos;
    }
    let initial_pos = compressed.len() - initial_pos;

    {
        let mut seekable_decoder =
            AnsCoder::<u32, u64, _>::from_compressed(ReadCursorForward::new(compressed)).unwrap();

        // Verify that decoding leads to the expected positions and states.
        for (chunk, &(pos, state)) in symbols.iter().zip(&jump_table).rev() {
            assert_eq!(seekable_decoder.pos_and_state(), (pos, state));
            let decoded = seekable_decoder.decode_iid_symbols::<_, 24>(SYMBOLS_PER_CHUNK, &model);
            assert_eq!(&decoded, chunk)
        }
        assert_eq!(
            seekable_decoder.pos_and_state(),
            (initial_pos, initial_state)
        );
        assert!(seekable_decoder.is_empty());

        // Seek to some random offsets in the jump table and decode one chunk each time.
        for _ in 0..100 {
            let chunk_index = rng.next_u32() as usize % NUM_CHUNKS;
            let (pos, state) = jump_table[chunk_index];
            seekable_decoder.seek((pos, state)).unwrap();
            let decoded = seekable_decoder.decode_iid_symbols::<_, 24>(SYMBOLS_PER_CHUNK, &model);
            assert_eq!(&decoded, &symbols[chunk_index])
        }
    }
}

/// A model that gives every symbol the interval that it is told to give, whether
/// that is the interval of a symbol or not.
struct Fixed {
    left_cumulative: u32,
    probability: u32,
}

impl EncoderModel<u32, 24> for Fixed {
    type Symbol = i32;

    fn left_cumulative_and_probability(&self, _symbol: &i32) -> Result<(u32, u32), ()> {
        Ok((self.left_cumulative, self.probability))
    }
}

#[test]
fn encode_steps_give_exact_states() {
    // Words of 8 bits, a state of 16 bits, and a precision of 4 bits.
    let intervals = [(3u8, 5u8), (8, 8), (0, 3), (3, 5), (8, 8), (0, 3), (0, 3), (0, 3)];
    let states = [3u16, 11, 50, 163, 331, 1761, 9392, 50082];
    let mut coder = AnsCoder::<u8, u16>::new();
    for (&(c, p), &state) in intervals.iter().zip(&states) {
        coder.encode_interval::<4>(c, p).unwrap();
        assert_eq!(coder.state(), state);
        assert!(coder.bulk().is_empty());
    }

    // The state is at or above `3 << 12` now: the next symbol flushes a word.
    coder.encode_interval::<4>(0, 3).unwrap();
    assert_eq!(coder.state(), 1040);
    assert_eq!(*coder.bulk(), vec![162]);
    assert_eq!(coder.iter_compressed(), vec![162, 16, 4]);
    assert_eq!(coder.into_compressed(), vec![162, 16, 4]);
}

#[test]
fn decode_steps_give_exact_states() {
    let mut coder = AnsCoder::<u8, u16>::from_compressed(vec![162, 16, 4]).unwrap();
    assert_eq!(coder.state(), 1040);
    assert_eq!(*coder.bulk(), vec![162]);

    assert_eq!(coder.quantile::<4>(), 0);
    coder.decode_interval::<4>(0, 3);
    assert_eq!(coder.state(), 50082);
    assert!(coder.bulk().is_empty());

    let intervals = [(3u8, 5u8), (8, 8), (0, 3), (3, 5), (8, 8), (0, 3), (0, 3), (0, 3)];
    let states = [0u16, 3, 11, 50, 163, 331, 1761, 9392];
    for (&(c, p), &state) in intervals.iter().zip(&states).rev() {
        let quantile = coder.quantile::<4>();
        assert!(c <= quantile && quantile < c + p);
        coder.decode_interval::<4>(c, p);
        assert_eq!(coder.state(), state);
    }
    assert!(coder.is_empty());
}

#[test]
fn primitive_operations_do_what_they_say() {
    let mut coder = AnsCoder::<u16, u32>::with_state_and_empty_bulk(0x0012_3456);
    assert_eq!(coder.chop_quantile_off_state::<12>(), 0x456);
    assert_eq!(coder.state(), 0x123);
    coder.encode_remainder_onto_state(7, 10);
    assert_eq!(coder.state(), 0x123 * 10 + 7);
    assert_eq!(coder.decode_remainder_off_state(10), Ok(7));
    assert_eq!(coder.state(), 0x123);
    assert_eq!(
        coder.decode_remainder_off_state(0),
        Err(EncodingError::ImpossibleSymbol)
    );
    assert_eq!(coder.state(), 0x123);
    coder.append_quantile_to_state::<12>(0xabc);
    assert_eq!(coder.state(), 0x0012_3abc);

    assert_eq!(coder.try_refill_state_if_necessary(), Ok(()));
    assert_eq!(coder.state(), 0x0012_3abc);
    coder.flush_state();
    assert_eq!(coder.state(), 0x12);
    assert_eq!(*coder.bulk(), vec![0x3abc]);
    assert_eq!(coder.try_refill_state_if_necessary(), Ok(()));
    assert_eq!(coder.state(), 0x0012_3abc);
    assert!(coder.bulk().is_empty());

    // With an empty bulk, there is nothing to refill the state with: it stays.
    let mut low = AnsCoder::<u16, u32>::with_state_and_empty_bulk(0x12);
    assert_eq!(low.try_refill_state_if_necessary(), Ok(()));
    assert_eq!(low.state(), 0x12);
    assert!(low.bulk().is_empty());
    assert_eq!(low.try_refill_state(), Err(()));
    assert_eq!(low.state(), 0x12);
}

#[test]
fn single_symbol() {
    let model = Categorical::<24>::from_floating_point_probabilities(&[0.1, 0.6, 0.3]).unwrap();
    let mut coder = DefaultAnsCoder::new();
    coder.encode_symbol::<_, 24>(&2, &model).unwrap();
    assert!(!coder.is_empty());
    assert_eq!(coder.decode_symbol::<_, 24>(&model), 2);
    assert!(coder.is_empty());
}

#[test]
fn iid_block() {
    let symbols = vec![0, 2, 1, 2, 0, 2, 0, 2, 1];
    let model = Categorical::<24>::from_floating_point_probabilities(&[0.1, 0.6, 0.3]).unwrap();
    let mut coder = DefaultAnsCoder::new();
    coder
        .encode_iid_symbols_reverse::<_, 24>(&symbols, &model)
        .unwrap();
    assert_eq!(coder.decode_iid_symbols::<_, 24>(9, &model), symbols);
    assert!(coder.is_empty());
}

#[test]
fn quantized_gaussian_block() {
    let symbols = vec![12, -13, 25];
    let means = [10.3, -4.7, 20.5];
    let stds = [5.2, 24.2, 3.1];
    let quantizer = LeakyQuantizer::<24>::new(-100, 100);
    let models = means
        .iter()
        .zip(&stds)
        .map(|(&mean, &std)| quantizer.quantize(Normal::new(mean, std).unwrap()))
        .collect::<Vec<_>>();
    let symbols_and_models = symbols
        .iter()
        .cloned()
        .zip(models.iter().cloned())
        .collect::<Vec<_>>();

    let mut coder = DefaultAnsCoder::new();
    coder
        .encode_symbols_reverse::<_, 24>(&symbols_and_models)
        .unwrap();
    assert_eq!(coder.iter_compressed(), vec![597775281, 3]);

    let mut decoder = DefaultAnsCoder::from_compressed(vec![597775281, 3]).unwrap();
    assert_eq!(decoder.decode_symbols::<_, 24>(&models), symbols);
    assert!(decoder.is_empty());
}

#[test]
fn binary_mode_keeps_trailing_zeros() {
    let data = vec![0x89ab_cdef, 0x0123_4567];

    let stack1 = DefaultAnsCoder::from_binary(data.clone());
    assert_eq!(stack1.clone().into_binary().unwrap(), data);

    let stack2 = DefaultAnsCoder::from_compressed(data.clone()).unwrap();
    assert!(stack2.clone().into_binary().is_err());
    assert_eq!(stack2.into_compressed(), data);

    assert_eq!(
        stack1.into_compressed(),
        vec![0x89ab_cdef, 0x0123_4567, 0x0000_0001]
    );
}

#[test]
fn binary_round_trip_for_all_kinds_of_data() {
    let buffers: Vec<Vec<u16>> = vec![
        vec![],
        vec![0],
        vec![7],
        vec![0, 0],
        vec![1, 0, 0],
        vec![0, 0, 0, 0, 0],
        vec![0xffff, 0, 0x8000, 0],
        vec![1, 2, 3, 4, 5, 6, 7, 0, 0],
    ];
    for data in buffers {
        let coder = AnsCoder::<u16, u64>::from_binary(data.clone());
        assert!(!coder.is_empty());
        assert_eq!(coder.get_binary(), Ok(data.clone()));
        assert_eq!(coder.into_binary(), Ok(data.clone()));

        let small = SmallAnsCoder::from_binary(data.clone());
        assert!(!small.is_empty());
        assert_eq!(small.into_binary(), Ok(data));
    }
}

#[test]
fn from_binary_reads_as_if_a_one_word_followed() {
    let stack1 = DefaultAnsCoder::from_binary(Vec::new());
    assert!(!stack1.is_empty());
    assert_eq!(stack1.state(), 1);

    let stack2 = DefaultAnsCoder::from_compressed(Vec::new()).unwrap();
    assert!(stack2.is_empty());

    let data = vec![5u8, 6, 7, 8, 9];
    let mut with_one = data.clone();
    with_one.push(1);
    let sealed = AnsCoder::<u8, u32>::from_binary(data);
    let compressed = AnsCoder::<u8, u32>::from_compressed(with_one).unwrap();
    assert_eq!(sealed.state(), 0x0109_0807);
    assert_eq!(sealed.into_raw_parts(), compressed.into_raw_parts());
}

#[test]
fn into_binary_needs_whole_words_below_the_top_bit() {
    assert_eq!(DefaultAnsCoder::new().into_binary(), Err(()));
    let uneven = DefaultAnsCoder::with_state_and_empty_bulk(0x3_0000_0000);
    assert_eq!(uneven.into_binary(), Err(()));
    let short = DefaultAnsCoder::with_state_and_empty_bulk(0x8000_0000);
    assert_eq!(short.into_binary(), Err(()));
    let even = DefaultAnsCoder::with_state_and_empty_bulk(0x1_0000_0000);
    assert_eq!(even.into_binary(), Ok(vec![0]));
    let full = DefaultAnsCoder::with_state_and_empty_bulk(0x1_8000_0000);
    assert_eq!(full.into_binary(), Ok(vec![0x8000_0000]));
    let one = DefaultAnsCoder::with_state_and_empty_bulk(1);
    assert_eq!(one.into_binary(), Ok(vec![]));
}

#[test]
fn from_compressed_rejects_a_trailing_zero_word() {
    for data in [vec![0u32], vec![1, 0], vec![7, 8, 9, 0]] {
        assert_eq!(
            DefaultAnsCoder::from_compressed(data.clone()).map(|_| ()),
            Err(data.clone())
        );
        assert!(DefaultAnsCoder::from_compressed_slice(&data).is_err());
        let mut reversed = data.clone();
        reversed.reverse();
        assert!(DefaultAnsCoder::from_reversed_compressed(reversed).is_err());
    }
    for data in [vec![], vec![1u32], vec![0, 1], vec![0, 0, 0, 9]] {
        assert!(DefaultAnsCoder::from_compressed(data.clone()).is_ok());
        assert!(DefaultAnsCoder::from_compressed_slice(&data).is_ok());
        let mut reversed = data.clone();
        reversed.reverse();
        assert!(DefaultAnsCoder::from_reversed_compressed(reversed).is_ok());
    }
}

#[test]
fn from_compressed_undoes_into_compressed() {
    let model = Categorical::<12>::from_floating_point_probabilities(&[0.3, 0.1, 0.1, 0.5])
        .unwrap();
    let mut coder = AnsCoder::<u16, u32>::new();
    for round in 0..200usize {
        coder.encode_symbol::<_, 12>(&(round % 4), &model).unwrap();
        let state = coder.state();
        let bulk = coder.bulk().clone();
        let compressed = coder.iter_compressed();
        assert_ne!(compressed.last(), Some(&0));
        let restored = AnsCoder::<u16, u32>::from_compressed(compressed.clone()).unwrap();
        assert_eq!(restored.state(), state);
        assert_eq!(*restored.bulk(), bulk);
        assert_eq!(restored.into_compressed(), compressed);
    }
}

#[test]
fn state_reaches_threshold_unless_bulk_is_empty() {
    let model = Categorical::<8>::from_floating_point_probabilities(&[0.5, 0.25, 0.25]).unwrap();
    let mut coder = AnsCoder::<u8, u32>::new();
    for round in 0..300usize {
        coder.encode_symbol::<_, 8>(&(round % 3), &model).unwrap();
        assert!(coder.bulk().is_empty() || coder.state() >= 1 << 24);
    }
    assert!(!coder.bulk().is_empty());
    for _ in 0..400 {
        let _ = coder.decode_symbol::<_, 8>(&model);
        assert!(coder.bulk().is_empty() || coder.state() >= 1 << 24);
    }
}

#[test]
fn a_state_below_the_threshold_comes_with_an_empty_bulk() {
    // An empty bulk allows for any state; a coder with one symbol on it is not
    // empty, and its state is far below the threshold.
    let mut coder = DefaultAnsCoder::new();
    coder.encode_interval::<24>(5, 3).unwrap();
    assert_eq!(coder.state(), 5);
    assert!(!coder.is_empty());
    assert!(coder.bulk().is_empty());
}

#[test]
fn encode_then_decode_in_reverse_order() {
    let first = Categorical::<16>::from_floating_point_probabilities(&[0.2, 0.8]).unwrap();
    let second = Categorical::<16>::from_cdf(vec![0, 1, 2, 3, 1 << 16]);
    let symbols = [1usize, 0, 3, 1, 0, 2, 3, 3, 1, 0, 1, 1, 2, 0];
    let mut coder = AnsCoder::<u16, u64>::new();
    for (i, symbol) in symbols.iter().enumerate() {
        let model = if i % 2 == 0 { &second } else { &first };
        coder.encode_symbol::<_, 16>(&(symbol % if i % 2 == 0 { 4 } else { 2 }), model).unwrap();
    }
    for (i, symbol) in symbols.iter().enumerate().rev() {
        let model = if i % 2 == 0 { &second } else { &first };
        assert_eq!(
            coder.decode_symbol::<_, 16>(model),
            symbol % if i % 2 == 0 { 4 } else { 2 }
        );
    }
    assert!(coder.is_empty());
}

#[test]
fn precision_of_one_bit() {
    let model = Categorical::<1>::from_cdf(vec![0, 1, 2]);
    let symbols = (0..500usize).map(|i| (i * i / 3) % 2).collect::<Vec<_>>();
    let mut coder = AnsCoder::<u8, u16>::new();
    coder.encode_iid_symbols_reverse::<_, 1>(&symbols, &model).unwrap();
    // Every symbol takes one bit, but for the three zeros that are encoded first,
    // which leave the coder empty, and the one after them, which makes the top bit.
    assert_eq!(&symbols[496..], &[1, 0, 0, 0]);
    assert_eq!(coder.num_valid_bits(), 496);
    let compressed = coder.into_compressed();
    let mut decoder = AnsCoder::<u8, u16>::from_compressed(compressed).unwrap();
    assert_eq!(decoder.decode_iid_symbols::<_, 1>(500, &model), symbols);
    assert!(decoder.is_empty());
}

#[test]
fn precision_of_a_whole_word() {
    let model = Categorical::<16>::from_floating_point_probabilities(&[0.7, 0.1, 0.2]).unwrap();
    let symbols = (0..500usize).map(|i| (i * 7 / 5) % 3).collect::<Vec<_>>();
    let mut coder = AnsCoder::<u16, u32>::new();
    coder.encode_iid_symbols_reverse::<_, 16>(&symbols, &model).unwrap();
    let compressed = coder.into_compressed();
    let mut decoder = AnsCoder::<u16, u32>::from_compressed(compressed).unwrap();
    assert_eq!(decoder.decode_iid_symbols::<_, 16>(500, &model), symbols);
    assert!(decoder.is_empty());
}

#[test]
fn certain_symbol_leaves_empty_coder_empty() {
    let mut coder = DefaultAnsCoder::new();
    coder.encode_interval::<24>(0, 1 << 24).unwrap();
    assert!(coder.is_empty());
    assert_eq!(coder.quantile::<24>(), 0);
    coder.decode_interval::<24>(0, 1 << 24);
    assert!(coder.is_empty());
    assert!(coder.into_compressed().is_empty());
}

#[test]
fn impossible_symbol_leaves_coder_as_it_is() {
    let model = Categorical::<24>::from_floating_point_probabilities(&[0.1, 0.6, 0.3]).unwrap();
    let mut coder = DefaultAnsCoder::new();
    coder.encode_iid_symbols::<_, 24>(&[1, 2, 0, 1], &model).unwrap();
    let before = coder.iter_compressed();

    // The model does not know the symbol.
    assert_eq!(
        coder.encode_symbol::<_, 24>(&3, &model),
        Err(EncodingError::ImpossibleSymbol)
    );
    assert_eq!(coder.iter_compressed(), before);

    // The model knows the symbol, and gives it the probability zero.
    let zero = Fixed { left_cumulative: 17, probability: 0 };
    assert_eq!(
        coder.encode_symbol::<_, 24>(&0, &zero),
        Err(EncodingError::ImpossibleSymbol)
    );
    assert_eq!(
        coder.encode_interval::<24>(17, 0),
        Err(EncodingError::ImpossibleSymbol)
    );
    assert_eq!(coder.iter_compressed(), before);
}

#[test]
fn batch_stops_at_impossible_symbol_and_keeps_the_rest() {
    let model = Categorical::<24>::from_floating_point_probabilities(&[0.1, 0.6, 0.3]).unwrap();

    let mut expected = DefaultAnsCoder::new();
    expected.encode_iid_symbols::<_, 24>(&[1, 2], &model).unwrap();
    let mut coder = DefaultAnsCoder::new();
    assert_eq!(
        coder.encode_iid_symbols::<_, 24>(&[1, 2, 7, 0], &model),
        Err(EncodingError::ImpossibleSymbol)
    );
    assert_eq!(coder.iter_compressed(), expected.iter_compressed());

    let mut expected = DefaultAnsCoder::new();
    expected.encode_iid_symbols::<_, 24>(&[0], &model).unwrap();
    let mut coder = DefaultAnsCoder::new();
    assert_eq!(
        coder.encode_iid_symbols_reverse::<_, 24>(&[1, 2, 7, 0], &model),
        Err(EncodingError::ImpossibleSymbol)
    );
    assert_eq!(coder.iter_compressed(), expected.iter_compressed());
}

#[test]
fn reverse_batches_encode_the_last_symbol_first() {
    let model = Categorical::<24>::from_floating_point_probabilities(&[0.1, 0.6, 0.3]).unwrap();
    let other = Categorical::<24>::from_floating_point_probabilities(&[0.5, 0.5]).unwrap();
    let symbols = [2usize, 0, 1, 1, 2];

    let mut forward = DefaultAnsCoder::new();
    for symbol in symbols.iter().rev() {
        forward.encode_symbol::<_, 24>(symbol, &model).unwrap();
    }
    let mut reverse = DefaultAnsCoder::new();
    reverse.encode_iid_symbols_reverse::<_, 24>(&symbols, &model).unwrap();
    assert_eq!(reverse.iter_compressed(), forward.iter_compressed());

    let pairs = vec![(1usize, &other), (2, &model), (0, &other), (0, &model)];
    let mut forward = DefaultAnsCoder::new();
    for (symbol, model) in pairs.iter().rev() {
        forward.encode_symbol::<_, 24>(symbol, *model).unwrap();
    }
    let mut reverse = DefaultAnsCoder::new();
    reverse.encode_symbols_reverse::<_, 24>(&pairs).unwrap();
    assert_eq!(reverse.iter_compressed(), forward.iter_compressed());
    let mut in_order = DefaultAnsCoder::new();
    let mut reversed_pairs = pairs.clone();
    reversed_pairs.reverse();
    in_order.encode_symbols::<_, 24>(&reversed_pairs).unwrap();
    assert_eq!(in_order.iter_compressed(), forward.iter_compressed());

    let models = [&other, &model, &other, &model];
    assert_eq!(reverse.decode_symbols::<_, 24>(&models), vec![1, 2, 0, 0]);
    assert!(reverse.is_empty());
}

#[test]
fn try_encode_tells_model_errors_from_coding_errors() {
    let model = Categorical::<24>::from_floating_point_probabilities(&[0.1, 0.6, 0.3]).unwrap();

    let mut expected = DefaultAnsCoder::new();
    expected.encode_iid_symbols_reverse::<_, 24>(&[1, 2], &model).unwrap();

    let entries: Vec<Result<(usize, &Categorical<24>), &str>> =
        vec![Ok((0, &model)), Err("no model"), Ok((1, &model)), Ok((2, &model))];
    let mut coder = DefaultAnsCoder::new();
    assert_eq!(
        coder.try_encode_symbols_reverse::<_, _, 24>(entries),
        Err(TryCodingError::InvalidEntropyModel("no model"))
    );
    assert_eq!(coder.iter_compressed(), expected.iter_compressed());

    let entries: Vec<Result<(usize, &Categorical<24>), &str>> =
        vec![Err("unreached"), Ok((9, &model)), Ok((1, &model)), Ok((2, &model))];
    let mut coder = DefaultAnsCoder::new();
    assert_eq!(
        coder.try_encode_symbols_reverse::<_, _, 24>(entries),
        Err(TryCodingError::CodingError(EncodingError::ImpossibleSymbol))
    );
    assert_eq!(coder.iter_compressed(), expected.iter_compressed());

    let entries: Vec<Result<(usize, &Categorical<24>), &str>> =
        vec![Ok((2, &model)), Ok((1, &model)), Err("no model"), Ok((0, &model))];
    let mut coder = DefaultAnsCoder::new();
    assert_eq!(
        coder.try_encode_symbols::<_, _, 24>(entries),
        Err(TryCodingError::InvalidEntropyModel("no model"))
    );
    assert_eq!(coder.iter_compressed(), expected.iter_compressed());

    let entries: Vec<Result<(usize, &Categorical<24>), &str>> =
        vec![Ok((2, &model)), Ok((1, &model))];
    let mut coder = DefaultAnsCoder::new();
    assert_eq!(coder.try_encode_symbols::<_, _, 24>(entries), Ok(()));
    assert_eq!(coder.iter_compressed(), expected.iter_compressed());
    assert_eq!(coder.decode_iid_symbols::<_, 24>(2, &model), vec![1, 2]);
}

#[test]
fn decoding_past_the_end_is_deterministic() {
    let model = Categorical::<24>::from_floating_point_probabilities(&[0.1, 0.6, 0.3]).unwrap();
    let mut first = DefaultAnsCoder::from_compressed(vec![0x1234_5678, 0x9abc]).unwrap();
    let mut second = first.clone();
    let symbols = first.decode_iid_symbols::<_, 24>(200, &model);
    assert_eq!(second.decode_iid_symbols::<_, 24>(200, &model), symbols);
    // The data is used up: what is left of the state lies in the interval of the
    // first symbol, and stays there.
    assert!(first.bulk().is_empty());
    let state = first.state();
    assert!(state < (1 << 24) / 10 + 2);
    assert_eq!(first.decode_iid_symbols::<_, 24>(3, &model), vec![0, 0, 0]);
    assert_eq!(first.state(), state);

    // An empty coder keeps giving the first symbol and stays empty.
    let mut empty = DefaultAnsCoder::new();
    assert_eq!(empty.decode_iid_symbols::<_, 24>(3, &model), vec![0, 0, 0]);
    assert!(empty.is_empty());
}

#[test]
fn num_words_bits_and_valid_bits() {
    let empty = DefaultAnsCoder::new();
    assert_eq!(empty.num_words(), 0);
    assert_eq!(empty.num_bits(), 0);
    assert_eq!(empty.num_valid_bits(), 0);
    assert!(empty.maybe_empty());

    let one = DefaultAnsCoder::with_state_and_empty_bulk(1);
    assert_eq!(one.num_words(), 1);
    assert_eq!(one.num_bits(), 32);
    assert_eq!(one.num_valid_bits(), 0);
    assert!(!one.maybe_empty());

    let word = DefaultAnsCoder::with_state_and_empty_bulk(0xffff_ffff);
    assert_eq!(word.num_words(), 1);
    assert_eq!(word.num_valid_bits(), 31);

    let more = DefaultAnsCoder::with_state_and_empty_bulk(0x1_0000_0000);
    assert_eq!(more.num_words(), 2);
    assert_eq!(more.num_bits(), 64);
    assert_eq!(more.num_valid_bits(), 32);

    let coder = AnsCoder::<u16, u64>::from_raw_parts(vec![1, 2, 3], 0x0001_0000_0000_0000).unwrap();
    assert_eq!(coder.num_words(), 3 + 4);
    assert_eq!(coder.num_bits(), 16 * 7);
    assert_eq!(coder.num_valid_bits(), 16 * 3 + 48);
    assert_eq!(coder.clone().into_compressed().len(), coder.num_words());
}

#[test]
fn num_words_is_the_length_of_the_compressed_data() {
    let model = Categorical::<8>::from_floating_point_probabilities(&[0.3, 0.1, 0.1, 0.5])
        .unwrap();
    let mut coder = AnsCoder::<u8, u32>::new();
    for round in 0..100usize {
        assert_eq!(coder.num_words(), coder.clone().into_compressed().len());
        assert_eq!(coder.num_bits(), 8 * coder.num_words());
        assert!(coder.num_valid_bits() <= coder.num_bits());
        assert!(coder.num_valid_bits() + 8 >= coder.num_bits());
        coder.encode_symbol::<_, 8>(&(round % 4), &model).unwrap();
    }
}

#[test]
fn iter_compressed_is_what_get_compressed_shows() {
    let model = Categorical::<24>::from_floating_point_probabilities(&[0.1, 0.6, 0.3]).unwrap();
    let symbols = (0..200usize).map(|i| (i / 3) % 3).collect::<Vec<_>>();
    let mut coder = DefaultAnsCoder::new();
    assert_eq!(coder.get_compressed(|data| data.clone()), Vec::<u32>::new());
    coder.encode_iid_symbols::<_, 24>(&symbols, &model).unwrap();

    let bulk = coder.bulk().clone();
    let state = coder.state();
    let collected = coder.iter_compressed();
    assert!(!collected.is_empty());
    assert_eq!(coder.get_compressed(|data| data.clone()), collected);
    assert_eq!(coder.get_compressed(|data| data.len()), coder.num_words());

    // The coder is as it was.
    assert_eq!(*coder.bulk(), bulk);
    assert_eq!(coder.state(), state);
    assert_eq!(coder.into_compressed(), collected);
}

#[test]
fn from_raw_parts_checks_the_state() {
    assert!(DefaultAnsCoder::from_raw_parts(vec![], 0).is_ok());
    assert!(DefaultAnsCoder::from_raw_parts(vec![], 0xffff_ffff).is_ok());
    assert!(DefaultAnsCoder::from_raw_parts(vec![7], 0x1_0000_0000).is_ok());
    assert!(DefaultAnsCoder::from_raw_parts(vec![7], 0xffff_ffff).is_err());
    assert!(DefaultAnsCoder::from_raw_parts(vec![7], 0).is_err());
    assert!(SmallAnsCoder::from_raw_parts(vec![7], 0x1_0000).is_ok());
    assert!(SmallAnsCoder::from_raw_parts(vec![7], 0xffff).is_err());

    let coder = DefaultAnsCoder::from_raw_parts(vec![7, 8], 0x1_0000_0002).unwrap();
    assert_eq!(coder.into_raw_parts(), (vec![7, 8], 0x1_0000_0002));
}

#[test]
fn clear_and_default_give_the_empty_coder() {
    let mut coder = DefaultAnsCoder::from_compressed(vec![1, 2, 3, 4]).unwrap();
    assert!(!coder.is_empty());
    coder.clear();
    assert!(coder.is_empty());
    assert!(coder.bulk().is_empty());
    assert!(coder.into_compressed().is_empty());

    let coder: AnsCoder<u16, u32> = Default::default();
    assert!(coder.is_empty());
    assert_eq!(coder.into_raw_parts(), (vec![], 0));
}

#[test]
fn seek_takes_a_state_below_the_threshold_only_at_the_end() {
    let compressed = vec![11u32, 12, 13, 0x2222, 0x1111];
    let coder = DefaultAnsCoder::from_compressed(compressed.clone()).unwrap();
    assert_eq!(coder.pos(), 3);
    assert_eq!(coder.pos_and_state(), (3, 0x1111_0000_2222));

    let mut decoder = coder.seekable_decoder();
    assert_eq!(decoder.pos_and_state(), (3, 0x1111_0000_2222));

    // There is no position above the end of the data.
    assert_eq!(decoder.seek((4, 0x1111_0000_2222)), Err(()));
    // A state below the threshold needs an empty bulk.
    assert_eq!(decoder.seek((2, 0xffff_ffff)), Err(()));
    // A state at the threshold needs words on the bulk.
    assert_eq!(decoder.seek((0, 0x1_0000_0000)), Err(()));
    assert_eq!(decoder.pos_and_state(), (3, 0x1111_0000_2222));

    assert_eq!(decoder.seek((1, 0x1_0000_0000)), Ok(()));
    assert_eq!(decoder.pos_and_state(), (1, 0x1_0000_0000));
    assert_eq!(decoder.seek((0, 5)), Ok(()));
    assert_eq!(decoder.pos_and_state(), (0, 5));
    // A cursor can go back.
    assert_eq!(decoder.seek((3, 0x1111_0000_2222)), Ok(()));
    assert_eq!(decoder.into_raw_parts().0.into_buf_and_pos().1, 3);

    let mut owned = coder.into_seekable_decoder();
    assert_eq!(owned.seek((2, 0x1_0000_0000)), Ok(()));
    assert_eq!(owned.clone().into_raw_parts().0.into_buf_and_pos().1, 2);
}

#[test]
fn reversed_coder_holds_the_same_data() {
    let model = Categorical::<24>::from_floating_point_probabilities(&[0.1, 0.6, 0.3]).unwrap();
    let symbols = (0..300usize).map(|i| (i * i) % 3).collect::<Vec<_>>();
    let mut encoder = DefaultAnsCoder::new();
    encoder.encode_iid_symbols_reverse::<_, 24>(&symbols, &model).unwrap();
    let compressed = encoder.into_compressed();

    let backward = AnsCoder::<u32, u64, _>::from_compressed(ReadCursorBackward::new(
        compressed.clone(),
    ))
    .unwrap();
    let state = backward.state();
    let mut forward = backward.into_reversed();
    assert_eq!(forward.state(), state);
    assert_eq!(forward.pos(), 2);
    assert_eq!(forward.decode_iid_symbols::<_, 24>(100, &model), symbols[..100]);

    let mut backward = forward.into_reversed();
    assert_eq!(backward.decode_iid_symbols::<_, 24>(100, &model), symbols[100..200]);
    let mut forward = backward.into_reversed();
    assert_eq!(forward.decode_iid_symbols::<_, 24>(100, &model), symbols[200..]);
    assert!(forward.is_empty());

    let mut reversed = compressed.clone();
    reversed.reverse();
    let mut from_reversed = DefaultAnsCoder::from_reversed_compressed(reversed).unwrap();
    assert_eq!(from_reversed.decode_iid_symbols::<_, 24>(300, &model), symbols);

    let mut from_slice = DefaultAnsCoder::from_compressed_slice(&compressed).unwrap();
    assert_eq!(from_slice.decode_iid_symbols::<_, 24>(300, &model), symbols);
    assert!(from_slice.is_empty());
}

#[test]
fn binary_adapters_read_the_same_coder() {
    let data = vec![3u16, 0, 9, 0];
    let expected = AnsCoder::<u16, u64>::from_binary(data.clone()).into_raw_parts();
    let from_slice = AnsCoder::<u16, u64, _>::from_binary_slice(&data);
    assert_eq!(from_slice.state(), expected.1);
    assert_eq!(from_slice.pos(), expected.0.len());

    let mut reversed = data.clone();
    reversed.reverse();
    let from_reversed = AnsCoder::<u16, u64, _>::from_reversed_binary(reversed);
    assert_eq!(from_reversed.state(), expected.1);
    assert_eq!(from_reversed.pos(), 3);
}

#[test]
fn iterator_yields_the_last_word_first() {
    let model = Categorical::<24>::from_floating_point_probabilities(&[0.1, 0.6, 0.3]).unwrap();
    let symbols = (0..300usize).map(|i| (i * i) % 3).collect::<Vec<_>>();
    let mut encoder = DefaultAnsCoder::new();
    encoder.encode_iid_symbols_reverse::<_, 24>(&symbols, &model).unwrap();
    let compressed = encoder.into_compressed();

    let mut decoder =
        DefaultAnsCoder::from_reversed_compressed_iter(compressed.iter().cloned().rev()).unwrap();
    assert_eq!(decoder.decode_iid_symbols::<_, 24>(300, &model), symbols);
    assert!(decoder.is_empty());

    assert!(DefaultAnsCoder::from_reversed_compressed_iter([0u32, 1, 2].into_iter()).is_err());
    assert!(DefaultAnsCoder::from_reversed_compressed_iter([2u32, 1, 0].into_iter()).is_ok());
    assert!(DefaultAnsCoder::from_reversed_compressed_iter(core::iter::empty())
        .unwrap()
        .is_empty());

    let data = vec![3u16, 0, 9, 0];
    let expected = AnsCoder::<u16, u64>::from_binary(data.clone());
    let sealed = AnsCoder::<u16, u64, _>::from_reversed_binary_iter(data.into_iter().rev());
    assert_eq!(sealed.state(), expected.state());
    let mut bulk = sealed.into_raw_parts().0;
    assert_eq!(ReadStackBackend::read(&mut bulk), Some(3));
    assert_eq!(ReadStackBackend::read(&mut bulk), None);
}

#[test]
fn encoding_undoes_decoding() {
    let model = Categorical::<24>::from_floating_point_probabilities(&[0.1, 0.6, 0.3]).unwrap();
    let data = vec![0x89ab_cdefu32, 0x0123_4567, 0xdead_beef, 0x1];
    let mut coder = DefaultAnsCoder::from_compressed(data.clone()).unwrap();
    let symbols = coder.decode_iid_symbols::<_, 24>(20, &model);
    assert_ne!(coder.iter_compressed(), data);
    coder.encode_iid_symbols_reverse::<_, 24>(&symbols, &model).unwrap();
    assert_eq!(coder.into_compressed(), data);
}
