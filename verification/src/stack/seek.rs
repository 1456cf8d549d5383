//! Positions in the compressed data, and the direction in which it is read.
use vstd::prelude::*;

use crate::backends::{
    Backend, PosBackend, ReadCursorBackward, ReadCursorForward, SeekBackend,
};
use crate::bit_array::BitArray;
use crate::rans::AnsState;
use crate::stack::AnsCoder;

verus! {

impl<W: BitArray, S: BitArray, B: Backend<W>> AnsCoder<W, S, B> {
    /// The position of the backend. Together with the state, it tells where the
    /// coder is.
    pub fn pos(&self) -> (pos: usize) where B: PosBackend<W>
        ensures
            self.backend().stack_at(pos as nat) == Some(self.backend().stack()),
    {
        self.bulk.pos()
    }

    /// The position of the backend and the state: a snapshot of the coder that
    /// [`AnsCoder::seek`] takes.
    pub fn pos_and_state(&self) -> (snapshot: (usize, S)) where B: PosBackend<W>
        ensures
            self.backend().stack_at(snapshot.0 as nat) == Some(self.backend().stack()),
            snapshot.1 == self.state(),
            snapshot.1.value() == self@.state,
    {
        (self.bulk.pos(), self.state)
    }

    /// Moves the coder to a snapshot. A state below the threshold is only taken at
    /// the end of the compressed data, a state that reaches the threshold only
    /// elsewhere. Fails, and leaves the coder as it is, if the backend refuses the
    /// position.
    pub fn seek(&mut self, snapshot: (usize, S)) -> (r: Result<(), ()>) where B: SeekBackend<W>
        requires
            crate::rans::valid_widths(W::bits(), S::bits()),
        ensures
            old(self).leads_to(final(self)),
            r.is_ok() == crate::backends::seek_succeeds(
                old(self).backend().stack_at(snapshot.0 as nat),
                snapshot.1.value() < crate::rans::threshold(W::bits(), S::bits()),
            ),
            r.is_ok() ==> final(self).wf() && final(self)@ == (AnsState {
                bulk: crate::bit_array::values(
                    old(self).backend().stack_at(snapshot.0 as nat).unwrap(),
                ),
                state: snapshot.1.value(),
            }),
            r.is_err() ==> final(self)@ == old(self)@ && final(self).backend().stack() == old(
                self,
            ).backend().stack(),
    {
        proof {
            S::lemma_bits();
        }
        let (pos, state) = snapshot;
        let must_be_end = state.to_u64() < crate::bit_array::pow2_u64(S::width() - W::width());
        match self.bulk.seek(pos, must_be_end) {
            Ok(()) => {
                self.state = state;
                proof {
                    self.lemma_in_range();
                }
                Ok(())
            },
            Err(()) => Err(()),
        }
    }

    /// A snapshot stays a snapshot when more symbols are encoded: the position of a
    /// coder is still a position of the later coder, and the words below it are
    /// what they were. A decoder of the later data that seeks to the position, with
    /// the state of the coder, holds what the coder held.
    pub proof fn law_snapshot_stays(&self, later: &Self, pos: nat, prec: nat, count: nat) where
        B: PosBackend<W>,

        requires
            self.wf(),
            crate::rans::valid_precision(W::bits(), prec),
            self.backend().stack_at(pos) == Some(self.backend().stack()),
            self.leads_to(later),
            crate::rans::encoded(self@, later@, W::bits(), S::bits(), prec, count),
        ensures
            later.backend().stack_at(pos) == Some(self.backend().stack()),
    {
        let intervals = choose|intervals: Seq<(nat, nat)>|
            intervals.len() == count && crate::rans::valid_intervals(prec, intervals) && later@
                == #[trigger] crate::rans::encode_all(
                self@,
                W::bits(),
                S::bits(),
                prec,
                intervals,
            );
        crate::laws::law_seek_returns_to_snapshot(self@, W::bits(), S::bits(), prec, intervals);
        let words = self.backend().stack();
        let more = later.backend().stack();
        let len = words.len() as int;
        self.lemma_view();
        later.lemma_view();
        assert(crate::bit_array::values(more.take(len)) =~= crate::bit_array::values(more).take(
            len,
        ));
        crate::bit_array::lemma_values_is_injective(more.take(len), words);
        assert(words.is_prefix_of(more));
        self.backend().lemma_position_stays(&later.backend(), pos);
    }

    /// What was encoded between two coders of a row of coders, each of which was
    /// made of the one before it by encoding `counts` symbols: the number of
    /// symbols, all in all.
    pub proof fn lemma_encoded_since(
        coders: Seq<Self>,
        counts: Seq<nat>,
        prec: nat,
        from: int,
        to: int,
    ) -> (count: nat)
        requires
            counts.len() == coders.len() - 1,
            0 <= from <= to < coders.len(),
            forall|j: int|
                0 <= j < coders.len() - 1 ==> (#[trigger] coders[j]).leads_to(&coders[j + 1])
                    && crate::rans::encoded(
                    coders[j]@,
                    coders[j + 1]@,
                    W::bits(),
                    S::bits(),
                    prec,
                    counts[j],
                ),
        ensures
            coders[from].leads_to(&coders[to]),
            crate::rans::encoded(coders[from]@, coders[to]@, W::bits(), S::bits(), prec, count),
        decreases to - from,
    {
        if from == to {
            coders[from].lemma_leads_to_itself();
            crate::rans::lemma_encoded_none(coders[from]@, W::bits(), S::bits(), prec);
            0
        } else {
            let count = Self::lemma_encoded_since(coders, counts, prec, from, to - 1);
            assert(coders[to - 1].leads_to(&coders[to - 1 + 1]));
            coders[from].lemma_leads_to_is_transitive(&coders[to - 1], &coders[to]);
            crate::rans::lemma_encoded_more(
                coders[from]@,
                coders[to - 1]@,
                coders[to]@,
                W::bits(),
                S::bits(),
                prec,
                count,
                counts[to - 1],
            );
            count + counts[to - 1]
        }
    }

    /// A jump table holds. Of a row of coders, each of which was made of the one
    /// before it by encoding symbols, every position is still a position of the
    /// last coder, with the words that the coder at that position had: a decoder
    /// of the last coder's data can seek to any of the snapshots.
    pub proof fn law_jump_table_holds(
        coders: Seq<Self>,
        positions: Seq<nat>,
        counts: Seq<nat>,
        prec: nat,
        i: int,
    ) where B: PosBackend<W>
        requires
            crate::rans::valid_precision(W::bits(), prec),
            positions.len() == coders.len(),
            counts.len() == coders.len() - 1,
            0 <= i < coders.len(),
            forall|j: int|
                0 <= j < coders.len() ==> (#[trigger] coders[j]).wf()
                    && coders[j].backend().stack_at(positions[j]) == Some(
                    coders[j].backend().stack(),
                ),
            forall|j: int|
                0 <= j < coders.len() - 1 ==> (#[trigger] coders[j]).leads_to(&coders[j + 1])
                    && crate::rans::encoded(
                    coders[j]@,
                    coders[j + 1]@,
                    W::bits(),
                    S::bits(),
                    prec,
                    counts[j],
                ),
        ensures
            coders.last().backend().stack_at(positions[i]) == Some(coders[i].backend().stack()),
    {
        let count = Self::lemma_encoded_since(coders, counts, prec, i, coders.len() - 1);
        coders[i].law_snapshot_stays(&coders.last(), positions[i], prec, count);
    }
}

impl<W: BitArray, S: BitArray> AnsCoder<W, S, Vec<W>> {
    /// A decoder that reads the data of this coder, where it is, and that can seek.
    /// The positions of the decoder are those of this coder.
    pub fn seekable_decoder<'a>(&'a self) -> (decoder: AnsCoder<
        W,
        S,
        ReadCursorBackward<W, &'a [W]>,
    >)
        ensures
            decoder@ == self@,
            decoder.wf() == self.wf(),
            forall|pos: nat| decoder.backend().stack_at(pos) == self.backend().stack_at(pos),
    {
        let bulk = ReadCursorBackward::new(self.bulk.as_slice());
        let decoder = AnsCoder { bulk, state: self.state, phantom: core::marker::PhantomData };
        proof {
            assert(decoder.bulk.stack() =~= self.bulk@);
        }
        decoder
    }

    /// Turns the coder into a decoder that can seek. The positions of the decoder
    /// are those of this coder.
    pub fn into_seekable_decoder(self) -> (decoder: AnsCoder<W, S, ReadCursorBackward<W, Vec<W>>>)
        ensures
            decoder@ == self@,
            decoder.wf() == self.wf(),
            forall|pos: nat| decoder.backend().stack_at(pos) == self.backend().stack_at(pos),
    {
        let bulk = ReadCursorBackward::new(self.bulk);
        let decoder = AnsCoder { bulk, state: self.state, phantom: core::marker::PhantomData };
        proof {
            assert(decoder.bulk.stack() =~= self.bulk@);
        }
        decoder
    }
}

impl<W: BitArray, S: BitArray> AnsCoder<W, S, ReadCursorBackward<W, Vec<W>>> {
    /// Reverses the compressed data in place and reads it in the other direction.
    /// The coder holds what it held.
    pub fn into_reversed(self) -> (reversed: AnsCoder<W, S, ReadCursorForward<W, Vec<W>>>)
        ensures
            reversed@ == self@,
            reversed.wf() == self.wf(),
            reversed.backend().buf() == self.backend().buf().reverse(),
            reversed.backend().position() == self.backend().buf().len()
                - self.backend().position(),
    {
        let bulk = self.bulk.into_reversed();
        AnsCoder { bulk, state: self.state, phantom: core::marker::PhantomData }
    }
}

impl<W: BitArray, S: BitArray> AnsCoder<W, S, ReadCursorForward<W, Vec<W>>> {
    /// Reverses the compressed data in place and reads it in the other direction.
    /// The coder holds what it held.
    pub fn into_reversed(self) -> (reversed: AnsCoder<W, S, ReadCursorBackward<W, Vec<W>>>)
        ensures
            reversed@ == self@,
            reversed.wf() == self.wf(),
            reversed.backend().buf() == self.backend().buf().reverse(),
            reversed.backend().position() == self.backend().buf().len()
                - self.backend().position(),
    {
        let bulk = self.bulk.into_reversed();
        AnsCoder { bulk, state: self.state, phantom: core::marker::PhantomData }
    }
}

} // verus!
