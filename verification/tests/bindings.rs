use constriction::bindings::{AnsCoder, ConstructionError, Decoding, EncodeError, Models, PRECISION};
use constriction::models::{DecoderModel, EncoderModel};
use constriction::table::Table as LookupTable;

/// A categorical distribution over the symbols `0..n`, given by the left-sided
/// cumulatives of the symbols, which end in the total.
struct Table {
    cdf: Vec<u32>,
}

impl Table {
    fn new(cdf: Vec<u32>) -> Self {
        assert_eq!(cdf[0], 0);
        assert_eq!(*cdf.last().unwrap(), 1 << PRECISION);
        Self { cdf }
    }
}

impl EncoderModel<u32, 24> for Table {
    type Symbol = i32;

    fn left_cumulative_and_probability(&self, symbol: &i32) -> Result<(u32, u32), ()> {
        let index = usize::try_from(*symbol).map_err(|_| ())?;
        if index + 1 < self.cdf.len() {
            Ok((self.cdf[index], self.cdf[index + 1] - self.cdf[index]))
        } else {
            Err(())
        }
    }
}

impl DecoderModel<u32, 24> for Table {
    type Symbol = i32;

    fn quantile_function(&self, quantile: u32) -> (i32, u32, u32) {
        let index = self.cdf.partition_point(|&c| c <= quantile) - 1;
        (index as i32, self.cdf[index], self.cdf[index + 1] - self.cdf[index])
    }
}

fn quarters() -> Table {
    Table::new(vec![0, 1 << 22, 1 << 23, 3 << 22, 1 << 24])
}

fn skewed() -> Table {
    Table::new(vec![0, 1, 1 << 20, 1 << 24])
}

#[test]
fn constructor_without_data_gives_an_empty_coder() {
    let mut coder = AnsCoder::new(None, None).unwrap();
    assert!(coder.is_empty());
    assert_eq!(coder.pos(), (0, 0));
    assert_eq!(coder.num_words(), 0);
    assert_eq!(coder.get_compressed(None), Ok(vec![]));
}

#[test]
fn constructor_needs_data_to_seal() {
    for seal in [false, true] {
        assert_eq!(
            AnsCoder::new(None, Some(seal)).map(|_| ()),
            Err(ConstructionError::NeedCompressedDataToSeal)
        );
    }
}

#[test]
fn constructor_rejects_a_trailing_zero_word_unless_it_seals() {
    for seal in [None, Some(false)] {
        assert_eq!(
            AnsCoder::new(Some(vec![1, 2, 0]), seal).map(|_| ()),
            Err(ConstructionError::InvalidCompressedData)
        );
        let mut coder = AnsCoder::new(Some(vec![1, 2, 3]), seal).unwrap();
        assert_eq!(coder.pos(), (1, (3 << 32) | 2));
        assert_eq!(coder.get_compressed(None), Ok(vec![1, 2, 3]));
        assert_eq!(coder.get_compressed(Some(false)), Ok(vec![1, 2, 3]));
        assert_eq!(coder.get_compressed(Some(true)), Err(()));
    }

    let mut sealed = AnsCoder::new(Some(vec![1, 2, 0]), Some(true)).unwrap();
    assert!(!sealed.is_empty());
    assert_eq!(sealed.pos(), (2, 1 << 32));
    assert_eq!(sealed.get_compressed(Some(true)), Ok(vec![1, 2, 0]));
    assert_eq!(sealed.get_compressed(None), Ok(vec![1, 2, 0, 1]));
}

#[test]
fn symbols_come_back_in_the_order_they_were_given() {
    let model = quarters();
    let symbols = [3, 0, 0, 1, 2, 3, 1, 1, 0, 2];

    let mut coder = AnsCoder::new(None, None).unwrap();
    coder.encode_reverse(&symbols, Models::Concrete(&model)).unwrap();
    // The symbol that is encoded first sets the state to its left-sided cumulative,
    // `2^23`; each of the others takes two bits.
    assert_eq!(coder.num_valid_bits(), 23 + 2 * (symbols.len() - 1));
    assert_eq!(coder.num_words(), 2);
    assert_eq!(coder.num_bits(), 64);

    let mut copy = coder.clone();
    assert_eq!(coder.decode(Decoding::One(&model)), vec![3]);
    assert_eq!(coder.decode(Decoding::Iid(&model, 4)), vec![0, 0, 1, 2]);
    let models = [quarters(), quarters(), quarters(), quarters(), quarters()];
    assert_eq!(coder.decode(Decoding::PerSymbol(&models)), vec![3, 1, 1, 0, 2]);
    assert!(coder.is_empty());

    // The copy is on its own.
    assert_eq!(copy.decode(Decoding::Iid(&model, 10)), symbols);
    assert!(copy.is_empty());
}

#[test]
fn a_model_for_each_symbol() {
    let models = [quarters(), skewed(), skewed(), quarters()];
    let symbols = [2, 1, 2, 3];

    let mut coder = AnsCoder::new(None, None).unwrap();
    coder.encode_reverse(&symbols, Models::PerSymbol(&models)).unwrap();
    let compressed = coder.get_compressed(None).unwrap();

    let mut one_by_one = AnsCoder::new(None, None).unwrap();
    for (symbol, model) in symbols.iter().zip(&models).rev() {
        one_by_one.encode_reverse(&[*symbol], Models::Concrete(model)).unwrap();
    }
    assert_eq!(one_by_one.get_compressed(None).unwrap(), compressed);

    let mut decoder = AnsCoder::new(Some(compressed), None).unwrap();
    assert_eq!(decoder.decode(Decoding::PerSymbol(&models)), symbols);
    assert!(decoder.is_empty());
}

#[test]
fn encode_reverse_wants_as_many_models_as_symbols() {
    let models = [quarters(), skewed()];
    let mut coder = AnsCoder::new(Some(vec![7, 8, 9]), None).unwrap();
    assert_eq!(
        coder.encode_reverse(&[1, 2, 0], Models::PerSymbol(&models)),
        Err(EncodeError::WrongLength)
    );
    assert_eq!(
        coder.encode_reverse(&[1], Models::PerSymbol(&models)),
        Err(EncodeError::WrongLength)
    );
    assert_eq!(coder.get_compressed(None), Ok(vec![7, 8, 9]));
}

#[test]
fn encode_reverse_stops_at_an_impossible_symbol() {
    let model = skewed();
    let mut expected = AnsCoder::new(None, None).unwrap();
    expected.encode_reverse(&[2, 1], Models::Concrete(&model)).unwrap();

    let mut coder = AnsCoder::new(None, None).unwrap();
    assert_eq!(
        coder.encode_reverse(&[0, 3, 2, 1], Models::Concrete(&model)),
        Err(EncodeError::ImpossibleSymbol)
    );
    assert_eq!(coder.get_compressed(None), expected.get_compressed(None));

    let models = [skewed(), skewed(), skewed(), skewed()];
    let mut coder = AnsCoder::new(None, None).unwrap();
    assert_eq!(
        coder.encode_reverse(&[0, -1, 2, 1], Models::PerSymbol(&models)),
        Err(EncodeError::ImpossibleSymbol)
    );
    assert_eq!(coder.get_compressed(None), expected.get_compressed(None));
}

#[test]
fn seek_drops_the_words_above_the_position() {
    let model = skewed();
    let part1 = [1, 2, 0, 1, 2, 0, 0];
    let part2 = [2, 2, 0, 1, 1];

    let mut coder = AnsCoder::new(None, None).unwrap();
    // Rare symbols on a coder that is not empty fill more than a word.
    let part3 = [0, 0, 0, 0, 1];
    coder.encode_reverse(&part3, Models::Concrete(&model)).unwrap();
    coder.encode_reverse(&part2, Models::Concrete(&model)).unwrap();
    let (position, state) = coder.pos();
    assert!(position > 0);
    coder.encode_reverse(&part1, Models::Concrete(&model)).unwrap();

    assert_eq!(coder.decode(Decoding::One(&model)), vec![1]);
    assert_eq!(coder.seek(position + 100, state), Err(()));
    assert_eq!(coder.seek(position, 17), Err(()));
    assert_eq!(coder.seek(0, state), Err(()));
    assert_eq!(coder.decode(Decoding::One(&model)), vec![2]);

    assert_eq!(coder.seek(position, state), Ok(()));
    assert_eq!(coder.pos(), (position, state));
    assert_eq!(coder.decode(Decoding::Iid(&model, 5)), part2);
    assert_eq!(coder.decode(Decoding::Iid(&model, 5)), part3);
    assert!(coder.is_empty());

    // At the end of the data, only a state below the threshold is taken.
    assert_eq!(coder.seek(0, 1 << 32), Err(()));
    assert_eq!(coder.seek(0, 5), Ok(()));
    assert_eq!(coder.pos(), (0, 5));
}

#[test]
fn clear_empties_the_coder() {
    let mut coder = AnsCoder::new(Some(vec![1, 2, 3, 4]), Some(true)).unwrap();
    assert!(!coder.is_empty());
    coder.clear();
    assert!(coder.is_empty());
    assert_eq!(coder.pos(), (0, 0));
    assert_eq!(coder.num_bits(), 0);
    assert_eq!(coder.num_valid_bits(), 0);
}

#[test]
fn library_table_is_a_model() {
    assert!(LookupTable::new(vec![]).is_none());
    assert!(LookupTable::new(vec![0]).is_none());
    assert!(LookupTable::new(vec![0, 1 << 23]).is_none());
    assert!(LookupTable::new(vec![1, 1 << 24]).is_none());
    assert!(LookupTable::new(vec![0, 9, 8, 1 << 24]).is_none());

    let table = LookupTable::new(vec![0, 5, 5, 1 << 20, 1 << 24]).unwrap();
    assert_eq!(table.len(), 4);
    assert_eq!(table.left_cumulative_and_probability(&0), Ok((0, 5)));
    assert_eq!(table.left_cumulative_and_probability(&1), Ok((5, 0)));
    assert_eq!(table.left_cumulative_and_probability(&2), Ok((5, (1 << 20) - 5)));
    assert_eq!(table.left_cumulative_and_probability(&3), Ok((1 << 20, 15 << 20)));
    assert_eq!(table.left_cumulative_and_probability(&4), Err(()));
    assert_eq!(table.left_cumulative_and_probability(&-1), Err(()));
    assert_eq!(table.quantile_function(0), (0, 0, 5));
    assert_eq!(table.quantile_function(4), (0, 0, 5));
    assert_eq!(table.quantile_function(5), (2, 5, (1 << 20) - 5));
    assert_eq!(table.quantile_function((1 << 20) - 1), (2, 5, (1 << 20) - 5));
    assert_eq!(table.quantile_function(1 << 20), (3, 1 << 20, 15 << 20));
    assert_eq!(table.quantile_function((1 << 24) - 1), (3, 1 << 20, 15 << 20));

    let symbols = [3, 0, 2, 2, 3, 0, 3, 3, 2];
    let mut coder = AnsCoder::new(None, None).unwrap();
    coder.encode_reverse(&symbols, Models::Concrete(&table)).unwrap();
    assert_eq!(
        coder.encode_reverse(&[3, 1], Models::Concrete(&table)),
        Err(EncodeError::ImpossibleSymbol)
    );
    assert_eq!(coder.decode(Decoding::One(&table)), vec![3]);
    assert_eq!(coder.decode(Decoding::Iid(&table, 8)), symbols[1..]);
    assert!(coder.is_empty());
}
