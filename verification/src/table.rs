//! A categorical entropy model over the symbols `0..n`, given by a table.
//!
//! The table holds the left-sided cumulative of each symbol, and the total after
//! the last one, with 24 bits of precision. It is the model that the bindings hand
//! out.
use vstd::arithmetic::power2::*;
use vstd::prelude::*;

use crate::bit_array::BitArray;
use crate::models::{DecoderModel, EncoderModel};

verus! {

/// The total of all probabilities: `2^24`.
pub const TOTAL: u32 = 0x100_0000;

/// Whether `cdf` holds the left-sided cumulatives of a distribution: it starts at
/// zero, does not fall, and ends at the total. There are at most `2^31` symbols.
pub open spec fn is_cdf(cdf: Seq<u32>) -> bool {
    &&& 2 <= cdf.len() <= 0x8000_0000
    &&& cdf[0] == 0
    &&& cdf.last() == TOTAL
    &&& forall|i: int| 0 <= i < cdf.len() - 1 ==> #[trigger] cdf[i] <= cdf[i + 1]
}

/// The cumulatives of a distribution do not fall over any distance.
pub proof fn lemma_cdf_is_monotonic(cdf: Seq<u32>, i: int, j: int)
    requires
        is_cdf(cdf),
        0 <= i <= j < cdf.len(),
    ensures
        cdf[i] <= cdf[j],
    decreases j - i,
{
    if i < j {
        lemma_cdf_is_monotonic(cdf, i, j - 1);
        assert(cdf[j - 1] <= cdf[j - 1 + 1]);
    }
}

/// A categorical distribution over the symbols `0..n`.
pub struct Table {
    cdf: Vec<u32>,
}

impl Table {
    #[verifier::type_invariant]
    spec fn holds_cdf(self) -> bool {
        is_cdf(self.cdf@)
    }

    /// The left-sided cumulative of each symbol, followed by the total.
    pub closed spec fn cdf(&self) -> Seq<u32> {
        self.cdf@
    }

    /// The interval of `symbol`, if it is one of the symbols of the table: its
    /// left-sided cumulative and its probability.
    pub open spec fn interval(&self, symbol: i32) -> Option<(u32, u32)> {
        if 0 <= symbol < self.cdf().len() - 1 {
            Some(
                (
                    self.cdf()[symbol as int],
                    (self.cdf()[symbol + 1] - self.cdf()[symbol as int]) as u32,
                ),
            )
        } else {
            None
        }
    }

    /// The table with the given cumulatives, if these are the cumulatives of a
    /// distribution.
    pub fn new(cdf: Vec<u32>) -> (table: Option<Self>)
        ensures
            table.is_some() == is_cdf(cdf@),
            table matches Some(table) ==> table.cdf() == cdf@ && is_cdf(table.cdf()),
    {
        let len = cdf.len();
        if len < 2 || len > 0x8000_0000 || cdf[0] != 0 || cdf[len - 1] != TOTAL {
            return None;
        }
        let mut i: usize = 0;
        while i < len - 1
            invariant
                len == cdf@.len(),
                2 <= len,
                i <= len - 1,
                forall|k: int| 0 <= k < i ==> #[trigger] cdf@[k] <= cdf@[k + 1],
            decreases len - i,
        {
            if cdf[i] > cdf[i + 1] {
                return None;
            }
            i += 1;
        }
        Some(Table { cdf })
    }

    /// The number of symbols.
    pub fn len(&self) -> (len: usize)
        ensures
            len == self.cdf().len() - 1,
            is_cdf(self.cdf()),
    {
        proof {
            use_type_invariant(self);
        }
        self.cdf.len() - 1
    }
}

impl EncoderModel<u32, 24> for Table {
    type Symbol = i32;

    /// The interval of `symbol`, if it is one of the symbols of the table.
    fn left_cumulative_and_probability(&self, symbol: &i32) -> (r: Result<(u32, u32), ()>)
        ensures
            is_cdf(self.cdf()),
            r == match self.interval(*symbol) {
                Some(interval) => Ok::<(u32, u32), ()>(interval),
                None => Err::<(u32, u32), ()>(()),
            },
    {
        proof {
            use_type_invariant(self);
            lemma2_to64();
        }
        let symbol = *symbol;
        if symbol < 0 || symbol as usize >= self.cdf.len() - 1 {
            return Err(());
        }
        let index = symbol as usize;
        proof {
            assert(self.cdf@[index as int] <= self.cdf@[index as int + 1]);
            lemma_cdf_is_monotonic(self.cdf@, index + 1, self.cdf@.len() - 1);
        }
        Ok((self.cdf[index], self.cdf[index + 1] - self.cdf[index]))
    }
}

impl DecoderModel<u32, 24> for Table {
    type Symbol = i32;

    /// The symbol whose interval holds `quantile`, with its interval.
    fn quantile_function(&self, quantile: u32) -> (r: (i32, u32, u32))
        ensures
            is_cdf(self.cdf()),
            self.interval(r.0) == Some((r.1, r.2)),
            r.1 <= quantile < r.1 + r.2,
    {
        proof {
            use_type_invariant(self);
            lemma2_to64();
        }
        let mut low: usize = 0;
        let mut high: usize = self.cdf.len() - 1;
        while high - low > 1
            invariant
                is_cdf(self.cdf@),
                low < high < self.cdf@.len(),
                self.cdf@[low as int] <= quantile < self.cdf@[high as int],
            decreases high - low,
        {
            let middle = low + (high - low) / 2;
            if self.cdf[middle] <= quantile {
                low = middle;
            } else {
                high = middle;
            }
        }
        proof {
            lemma_cdf_is_monotonic(self.cdf@, low + 1, self.cdf@.len() - 1);
        }
        (low as i32, self.cdf[low], self.cdf[low + 1] - self.cdf[low])
    }
}

/// A table gives back what it was given: it inverts itself.
pub proof fn law_table_inverts_itself(table: Table)
    requires
        is_cdf(table.cdf()),
    ensures
        crate::symbols::inverts::<u32, Table, Table, 24>(table, table),
{
    assert forall|
        symbol: i32,
        answer: Result<(u32, u32), ()>,
        quantile: u32,
        back: i32,
        c: u32,
        p: u32,
    |
        crate::models::answers::<u32, Table, 24>(&table, &symbol, answer)
            && crate::models::gives::<u32, Table, 24>(&table, quantile, back, c, p)
            && crate::models::interval(answer).is_some() && crate::models::interval(
            answer,
        ).unwrap().0 <= quantile.value() < crate::models::interval(answer).unwrap().0
            + crate::models::interval(answer).unwrap().1 implies back == symbol && c.value()
        == crate::models::interval(answer).unwrap().0 && p.value() == crate::models::interval(
        answer,
    ).unwrap().1 by {
        let cdf = table.cdf();
        if back < symbol {
            lemma_cdf_is_monotonic(cdf, back + 1, symbol as int);
        }
        if symbol < back {
            lemma_cdf_is_monotonic(cdf, symbol + 1, back as int);
        }
    }
}

} // verus!
