//! Sources and sinks of compressed words.
//!
//! A backend holds a stack of words: what is written last is read first. The
//! capabilities of a backend are separate traits, so that an operation of the coder
//! asks only for what it uses.
use vstd::prelude::*;

verus! {

/// A stack of words.
pub trait Backend<W> {
    /// The words that can still be read, in the order in which they were written:
    /// the last word is the next one to be read.
    spec fn stack(&self) -> Seq<W>;

    /// Whether `later` may be what reading, writing, clearing and seeking make of
    /// `self`. A backend that reads a buffer, for one, leads only to backends that
    /// read the same buffer.
    spec fn leads_to(&self, later: &Self) -> bool;

    /// A backend leads to itself.
    proof fn lemma_leads_to_itself(&self)
        ensures
            self.leads_to(self),
    ;

    /// Where a backend leads by way of another one, it leads.
    proof fn lemma_leads_to_is_transitive(&self, middle: &Self, later: &Self)
        requires
            self.leads_to(middle),
            middle.leads_to(later),
        ensures
            self.leads_to(later),
    ;
}

/// A backend that words can be read from.
pub trait ReadStackBackend<W>: Backend<W> {
    /// The word that `read` would return, without taking it off the stack.
    fn peek(&self) -> (word: Option<W>)
        ensures
            word == if self.stack().len() > 0 {
                Some(self.stack().last())
            } else {
                None
            },
    ;

    /// Takes the last word off the stack, if there is one.
    fn read(&mut self) -> (word: Option<W>)
        ensures
            word == if old(self).stack().len() > 0 {
                Some(old(self).stack().last())
            } else {
                None
            },
            final(self).stack() == if old(self).stack().len() > 0 {
                old(self).stack().drop_last()
            } else {
                old(self).stack()
            },
            old(self).leads_to(final(self)),
    ;
}

/// A backend that words can be written to.
pub trait WriteBackend<W>: Backend<W> {
    /// Puts `word` on the stack.
    fn write(&mut self, word: W)
        ensures
            final(self).stack() == old(self).stack().push(word),
            old(self).leads_to(final(self)),
    ;
}

/// Puts `words` on the stack of `backend`, the first one first.
pub fn extend<W: Copy, B: WriteBackend<W>>(backend: &mut B, words: &[W])
    ensures
        final(backend).stack() == old(backend).stack() + words@,
        old(backend).leads_to(final(backend)),
{
    let mut i: usize = 0;
    proof {
        backend.lemma_leads_to_itself();
    }
    while i < words.len()
        invariant
            i <= words.len(),
            backend.stack() == old(backend).stack() + words@.take(i as int),
            old(backend).leads_to(backend),
        decreases words.len() - i,
    {
        let ghost before = *backend;
        backend.write(words[i]);
        proof {
            old(backend).lemma_leads_to_is_transitive(&before, backend);
        }
        i += 1;
    }
}

/// A backend that can be emptied.
pub trait MutBackend<W>: Backend<W> {
    /// Discards all words.
    fn clear(&mut self)
        ensures
            final(self).stack().len() == 0,
            old(self).leads_to(final(self)),
    ;
}

/// A backend that knows how many words it holds.
pub trait LookaheadBackend<W>: Backend<W> {
    /// The number of words that can still be read.
    fn amt_left(&self) -> (amt: usize)
        ensures
            amt == self.stack().len(),
    ;

    /// Whether no word can be read.
    fn is_empty(&self) -> (empty: bool)
        ensures
            empty == (self.stack().len() == 0),
    ;
}

/// A backend with positions.
pub trait PosBackend<W>: Backend<W> {
    /// The stack that the backend has at position `pos`, if there is such a position.
    spec fn stack_at(&self, pos: nat) -> Option<Seq<W>>;

    /// A position stays what it is while the backend is used, as long as the
    /// backend can have the stack of the position.
    proof fn lemma_position_stays(&self, later: &Self, pos: nat)
        requires
            self.leads_to(later),
            self.stack_at(pos).is_some(),
            self.stack_at(pos).unwrap().is_prefix_of(later.stack()),
        ensures
            later.stack_at(pos) == self.stack_at(pos),
    ;

    /// The current position.
    fn pos(&self) -> (pos: usize)
        ensures
            self.stack_at(pos as nat) == Some(self.stack()),
    ;
}

/// Whether a backend may be moved to a position with the stack `target`, which is
/// `None` if there is no such position: with `must_be_end`, only to the end, where
/// no word is left; without it, only to where a word is left.
pub open spec fn seek_succeeds<W>(target: Option<Seq<W>>, must_be_end: bool) -> bool {
    match target {
        Some(stack) => must_be_end == (stack.len() == 0),
        None => false,
    }
}

/// A backend that can be moved to a position.
pub trait SeekBackend<W>: PosBackend<W> {
    /// Moves to `pos`. Fails, and leaves the stack as it is, if there is no such
    /// position, or if `must_be_end` does not say whether `pos` is the end.
    fn seek(&mut self, pos: usize, must_be_end: bool) -> (r: Result<(), ()>)
        ensures
            r.is_ok() == seek_succeeds(old(self).stack_at(pos as nat), must_be_end),
            r.is_ok() ==> Some(final(self).stack()) == old(self).stack_at(pos as nat),
            r.is_err() ==> final(self).stack() == old(self).stack(),
            old(self).leads_to(final(self)),
    ;
}

impl<W> Backend<W> for Vec<W> {
    open spec fn stack(&self) -> Seq<W> {
        self@
    }

    /// A buffer can grow and shrink at will.
    open spec fn leads_to(&self, later: &Self) -> bool {
        true
    }

    proof fn lemma_leads_to_itself(&self) {
    }

    proof fn lemma_leads_to_is_transitive(&self, middle: &Self, later: &Self) {
    }
}

impl<W: Copy> ReadStackBackend<W> for Vec<W> {
    fn peek(&self) -> (word: Option<W>) {
        if self.len() > 0 {
            Some(self[self.len() - 1])
        } else {
            None
        }
    }

    fn read(&mut self) -> (word: Option<W>) {
        self.pop()
    }
}

impl<W> WriteBackend<W> for Vec<W> {
    fn write(&mut self, word: W) {
        self.push(word);
    }
}

impl<W> MutBackend<W> for Vec<W> {
    fn clear(&mut self) {
        self.clear();
    }
}

impl<W> LookaheadBackend<W> for Vec<W> {
    fn amt_left(&self) -> (amt: usize) {
        self.len()
    }

    fn is_empty(&self) -> (empty: bool) {
        self.len() == 0
    }
}

impl<W> PosBackend<W> for Vec<W> {
    open spec fn stack_at(&self, pos: nat) -> Option<Seq<W>> {
        if pos <= self@.len() {
            Some(self@.take(pos as int))
        } else {
            None
        }
    }

    proof fn lemma_position_stays(&self, later: &Self, pos: nat) {
    }

    fn pos(&self) -> (pos: usize) {
        self.len()
    }
}

impl<W> SeekBackend<W> for Vec<W> {
    /// Drops the words above `pos`.
    fn seek(&mut self, pos: usize, must_be_end: bool) -> (r: Result<(), ()>) {
        if pos > self.len() || must_be_end != (pos == 0) {
            Err(())
        } else {
            self.truncate(pos);
            Ok(())
        }
    }
}

/// A buffer of words that can be looked at as a slice.
pub trait WordBuffer<W> {
    /// The words in the buffer.
    spec fn words(&self) -> Seq<W>;

    /// The words in the buffer.
    fn as_words(&self) -> (words: &[W])
        ensures
            words@ == self.words(),
    ;
}

impl<W> WordBuffer<W> for Vec<W> {
    open spec fn words(&self) -> Seq<W> {
        self@
    }

    fn as_words(&self) -> (words: &[W]) {
        self.as_slice()
    }
}

impl<'a, W> WordBuffer<W> for &'a [W] {
    open spec fn words(&self) -> Seq<W> {
        self@
    }

    fn as_words(&self) -> (words: &[W]) {
        self
    }
}

/// Reverses the order of the words in `words`.
pub fn reverse_in_place<W: Copy>(words: &mut Vec<W>)
    ensures
        final(words)@ == old(words)@.reverse(),
{
    let len = words.len();
    let mut i: usize = 0;
    while i < len / 2
        invariant
            len == words.len() == old(words)@.len(),
            i <= len / 2,
            forall|k: int|
                0 <= k < i || len - i <= k < len ==> #[trigger] words@[k] == old(words)@[len - 1
                    - k],
            forall|k: int| i <= k < len - i ==> #[trigger] words@[k] == old(words)@[k],
        decreases len / 2 - i,
    {
        let front = words[i];
        let back = words[len - 1 - i];
        words[i] = back;
        words[len - 1 - i] = front;
        i += 1;
    }
}

/// Reads a buffer from its end towards its start. The position is the number of
/// words that are left.
#[derive(Debug)]
pub struct ReadCursorBackward<W, Buf: WordBuffer<W>> {
    buf: Buf,
    pos: usize,
    phantom: core::marker::PhantomData<W>,
}

impl<W, Buf: WordBuffer<W>> ReadCursorBackward<W, Buf> {
    #[verifier::type_invariant]
    spec fn in_bounds(self) -> bool {
        self.pos <= self.buf.words().len()
    }

    /// The buffer that the cursor reads.
    pub closed spec fn buf(&self) -> Seq<W> {
        self.buf.words()
    }

    /// The number of words that are left.
    pub closed spec fn position(&self) -> nat {
        self.pos as nat
    }

    /// A cursor that has all of `buf` left.
    pub fn new(buf: Buf) -> (cursor: Self)
        ensures
            cursor.buf() == buf.words(),
            cursor.position() == buf.words().len(),
    {
        let pos = buf.as_words().len();
        ReadCursorBackward { buf, pos, phantom: core::marker::PhantomData }
    }

    /// The buffer and the position of the cursor.
    pub fn into_buf_and_pos(self) -> (r: (Buf, usize))
        ensures
            r.0.words() == self.buf(),
            r.1 == self.position(),
            r.1 <= self.buf().len(),
    {
        proof {
            use_type_invariant(&self);
        }
        (self.buf, self.pos)
    }
}

impl<W, Buf: WordBuffer<W> + Clone> Clone for ReadCursorBackward<W, Buf> {
    fn clone(&self) -> (cursor: Self) {
        proof {
            use_type_invariant(self);
        }
        let buf = self.buf.clone();
        let pos = if self.pos <= buf.as_words().len() {
            self.pos
        } else {
            buf.as_words().len()
        };
        ReadCursorBackward { buf, pos, phantom: core::marker::PhantomData }
    }
}

impl<W, Buf: WordBuffer<W>> Backend<W> for ReadCursorBackward<W, Buf> {
    open spec fn stack(&self) -> Seq<W> {
        self.buf().take(self.position() as int)
    }

    /// A cursor stays on its buffer.
    open spec fn leads_to(&self, later: &Self) -> bool {
        later.buf() == self.buf()
    }

    proof fn lemma_leads_to_itself(&self) {
    }

    proof fn lemma_leads_to_is_transitive(&self, middle: &Self, later: &Self) {
    }
}

impl<W: Copy, Buf: WordBuffer<W>> ReadStackBackend<W> for ReadCursorBackward<W, Buf> {
    fn peek(&self) -> (word: Option<W>) {
        proof {
            use_type_invariant(self);
        }
        if self.pos > 0 {
            Some(self.buf.as_words()[self.pos - 1])
        } else {
            None
        }
    }

    fn read(&mut self) -> (word: Option<W>) {
        proof {
            use_type_invariant(&*self);
        }
        if self.pos > 0 {
            self.pos -= 1;
            Some(self.buf.as_words()[self.pos])
        } else {
            None
        }
    }
}

impl<W, Buf: WordBuffer<W>> LookaheadBackend<W> for ReadCursorBackward<W, Buf> {
    fn amt_left(&self) -> (amt: usize) {
        proof {
            use_type_invariant(self);
        }
        self.pos
    }

    fn is_empty(&self) -> (empty: bool) {
        proof {
            use_type_invariant(self);
        }
        self.pos == 0
    }
}

impl<W, Buf: WordBuffer<W>> PosBackend<W> for ReadCursorBackward<W, Buf> {
    open spec fn stack_at(&self, pos: nat) -> Option<Seq<W>> {
        if pos <= self.buf().len() {
            Some(self.buf().take(pos as int))
        } else {
            None
        }
    }

    proof fn lemma_position_stays(&self, later: &Self, pos: nat) {
    }

    fn pos(&self) -> (pos: usize) {
        proof {
            use_type_invariant(self);
        }
        self.pos
    }
}

impl<W, Buf: WordBuffer<W>> SeekBackend<W> for ReadCursorBackward<W, Buf> {
    fn seek(&mut self, pos: usize, must_be_end: bool) -> (r: Result<(), ()>) {
        if pos > self.buf.as_words().len() || must_be_end != (pos == 0) {
            Err(())
        } else {
            self.pos = pos;
            Ok(())
        }
    }
}

/// Reads a buffer whose words are stored in the reverse order, from its start
/// towards its end. The position is the number of words that were read.
#[derive(Debug)]
pub struct ReadCursorForward<W, Buf: WordBuffer<W>> {
    buf: Buf,
    pos: usize,
    phantom: core::marker::PhantomData<W>,
}

impl<W, Buf: WordBuffer<W>> ReadCursorForward<W, Buf> {
    #[verifier::type_invariant]
    spec fn in_bounds(self) -> bool {
        self.pos <= self.buf.words().len()
    }

    /// The buffer that the cursor reads.
    pub closed spec fn buf(&self) -> Seq<W> {
        self.buf.words()
    }

    /// The number of words that were read.
    pub closed spec fn position(&self) -> nat {
        self.pos as nat
    }

    /// A cursor that has all of `buf` left.
    pub fn new(buf: Buf) -> (cursor: Self)
        ensures
            cursor.buf() == buf.words(),
            cursor.position() == 0,
    {
        ReadCursorForward { buf, pos: 0, phantom: core::marker::PhantomData }
    }

    /// The buffer and the position of the cursor.
    pub fn into_buf_and_pos(self) -> (r: (Buf, usize))
        ensures
            r.0.words() == self.buf(),
            r.1 == self.position(),
            r.1 <= self.buf().len(),
    {
        proof {
            use_type_invariant(&self);
        }
        (self.buf, self.pos)
    }
}

impl<W, Buf: WordBuffer<W> + Clone> Clone for ReadCursorForward<W, Buf> {
    fn clone(&self) -> (cursor: Self) {
        proof {
            use_type_invariant(self);
        }
        let buf = self.buf.clone();
        let pos = if self.pos <= buf.as_words().len() {
            self.pos
        } else {
            buf.as_words().len()
        };
        ReadCursorForward { buf, pos, phantom: core::marker::PhantomData }
    }
}

impl<W, Buf: WordBuffer<W>> Backend<W> for ReadCursorForward<W, Buf> {
    open spec fn stack(&self) -> Seq<W> {
        self.buf().skip(self.position() as int).reverse()
    }

    /// A cursor stays on its buffer.
    open spec fn leads_to(&self, later: &Self) -> bool {
        later.buf() == self.buf()
    }

    proof fn lemma_leads_to_itself(&self) {
    }

    proof fn lemma_leads_to_is_transitive(&self, middle: &Self, later: &Self) {
    }
}

impl<W: Copy, Buf: WordBuffer<W>> ReadStackBackend<W> for ReadCursorForward<W, Buf> {
    fn peek(&self) -> (word: Option<W>) {
        proof {
            use_type_invariant(self);
        }
        if self.pos < self.buf.as_words().len() {
            Some(self.buf.as_words()[self.pos])
        } else {
            None
        }
    }

    fn read(&mut self) -> (word: Option<W>) {
        proof {
            use_type_invariant(&*self);
        }
        if self.pos < self.buf.as_words().len() {
            let word = self.buf.as_words()[self.pos];
            self.pos += 1;
            Some(word)
        } else {
            None
        }
    }
}

impl<W, Buf: WordBuffer<W>> LookaheadBackend<W> for ReadCursorForward<W, Buf> {
    fn amt_left(&self) -> (amt: usize) {
        proof {
            use_type_invariant(self);
        }
        self.buf.as_words().len() - self.pos
    }

    fn is_empty(&self) -> (empty: bool) {
        proof {
            use_type_invariant(self);
        }
        self.pos == self.buf.as_words().len()
    }
}

impl<W, Buf: WordBuffer<W>> PosBackend<W> for ReadCursorForward<W, Buf> {
    open spec fn stack_at(&self, pos: nat) -> Option<Seq<W>> {
        if pos <= self.buf().len() {
            Some(self.buf().skip(pos as int).reverse())
        } else {
            None
        }
    }

    proof fn lemma_position_stays(&self, later: &Self, pos: nat) {
    }

    fn pos(&self) -> (pos: usize) {
        proof {
            use_type_invariant(self);
        }
        self.pos
    }
}

impl<W, Buf: WordBuffer<W>> SeekBackend<W> for ReadCursorForward<W, Buf> {
    fn seek(&mut self, pos: usize, must_be_end: bool) -> (r: Result<(), ()>) {
        let len = self.buf.as_words().len();
        if pos > len || must_be_end != (pos == len) {
            Err(())
        } else {
            self.pos = pos;
            Ok(())
        }
    }
}

/// The positions of a cursor on the reversed buffer mirror those of a cursor on the
/// buffer: where the one has `pos` words left, the other has read all but `pos`
/// words, and the stacks are the same.
pub proof fn law_positions_mirror<W, Buf: WordBuffer<W>, Reversed: WordBuffer<W>>(
    backward: ReadCursorBackward<W, Buf>,
    forward: ReadCursorForward<W, Reversed>,
    pos: nat,
)
    requires
        forward.buf() == backward.buf().reverse(),
        pos <= backward.buf().len(),
    ensures
        forward.stack_at((backward.buf().len() - pos) as nat) == backward.stack_at(pos),
{
    let buf = backward.buf();
    let len = buf.len();
    assert(buf.reverse().skip(len - pos).reverse() =~= buf.take(pos as int));
}

impl<W: Copy> ReadCursorBackward<W, Vec<W>> {
    /// Reverses the buffer in place and reads it in the other direction. The stack
    /// stays what it is.
    pub fn into_reversed(self) -> (reversed: ReadCursorForward<W, Vec<W>>)
        ensures
            reversed.stack() == self.stack(),
            reversed.buf() == self.buf().reverse(),
            reversed.position() == self.buf().len() - self.position(),
    {
        proof {
            use_type_invariant(&self);
        }
        let mut buf = self.buf;
        let pos = buf.len() - self.pos;
        reverse_in_place(&mut buf);
        let reversed = ReadCursorForward { buf, pos, phantom: core::marker::PhantomData };
        reversed
    }
}

impl<W: Copy> ReadCursorForward<W, Vec<W>> {
    /// Reverses the buffer in place and reads it in the other direction. The stack
    /// stays what it is.
    pub fn into_reversed(self) -> (reversed: ReadCursorBackward<W, Vec<W>>)
        ensures
            reversed.stack() == self.stack(),
            reversed.buf() == self.buf().reverse(),
            reversed.position() == self.buf().len() - self.position(),
    {
        proof {
            use_type_invariant(&self);
        }
        let mut buf = self.buf;
        let pos = buf.len() - self.pos;
        reverse_in_place(&mut buf);
        let reversed = ReadCursorBackward { buf, pos, phantom: core::marker::PhantomData };
        reversed
    }
}

/// Reads the words that an iterator yields, the first one first. The words are
/// taken from the iterator when the backend is made.
#[derive(Debug)]
pub struct ReadFromIterBackend<W> {
    words: Vec<W>,
    pos: usize,
}

impl<W> ReadFromIterBackend<W> {
    #[verifier::type_invariant]
    spec fn in_bounds(self) -> bool {
        self.pos <= self.words@.len()
    }

    /// The words that the iterator yielded and that were not read.
    pub closed spec fn unread(&self) -> Seq<W> {
        self.words@.skip(self.pos as int)
    }

    /// A backend that reads what `iter` yields.
    pub fn new<I: Iterator<Item = W>>(iter: I) -> (backend: Self)
        requires
            vstd::std_specs::iter::IteratorSpec::obeys_prophetic_iter_laws(&iter),
            vstd::std_specs::iter::IteratorSpec::decrease(&iter).is_some(),
        ensures
            backend.unread() == vstd::std_specs::iter::IteratorSpec::remaining(&iter),
    {
        let mut iter = iter;
        let mut words: Vec<W> = Vec::new();
        let ghost all = vstd::std_specs::iter::IteratorSpec::remaining(&iter);
        loop
            invariant
                vstd::std_specs::iter::IteratorSpec::obeys_prophetic_iter_laws(&iter),
                vstd::std_specs::iter::IteratorSpec::decrease(&iter).is_some(),
                words@ + vstd::std_specs::iter::IteratorSpec::remaining(&iter) == all,
            ensures
                words@ == all,
            decreases vstd::std_specs::iter::IteratorSpec::decrease(&iter).unwrap(),
        {
            match iter.next() {
                Some(word) => {
                    words.push(word);
                },
                None => {
                    break ;
                },
            }
        }
        let backend = ReadFromIterBackend { words, pos: 0 };
        backend
    }
}

impl<W> Backend<W> for ReadFromIterBackend<W> {
    open spec fn stack(&self) -> Seq<W> {
        self.unread().reverse()
    }

    /// There is nothing to keep but the stack.
    open spec fn leads_to(&self, later: &Self) -> bool {
        true
    }

    proof fn lemma_leads_to_itself(&self) {
    }

    proof fn lemma_leads_to_is_transitive(&self, middle: &Self, later: &Self) {
    }
}

impl<W: Copy> ReadStackBackend<W> for ReadFromIterBackend<W> {
    fn peek(&self) -> (word: Option<W>) {
        proof {
            use_type_invariant(self);
        }
        if self.pos < self.words.len() {
            Some(self.words[self.pos])
        } else {
            None
        }
    }

    fn read(&mut self) -> (word: Option<W>) {
        proof {
            use_type_invariant(&*self);
        }
        if self.pos < self.words.len() {
            let word = self.words[self.pos];
            self.pos += 1;
            Some(word)
        } else {
            None
        }
    }
}

} // verus!
