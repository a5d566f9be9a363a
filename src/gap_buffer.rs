//! A gap buffer of `char`s: one owned block of slots with an unused window
//! at the edit point, so that edits near that point move no text.

use vstd::prelude::*;

verus! {

/// The most characters a block can hold: its size in bytes must fit in `isize`.
pub const MAX_CHARS: usize = usize::MAX / 8;

/// The unused run of slots: it starts at `index` and spans `window_size` slots.
pub struct GapWindow {
    pub index: usize,
    pub window_size: usize,
}

/// The error of a lookup past the end of the text, or into the window.
#[derive(Debug, Clone, Copy, PartialEq, Eq, Structural)]
pub enum BufferError {
    OutOfRange,
}

pub struct TextGapBuffer {
    window_size: usize,
    buf: Vec<char>,
    gap_window: GapWindow,
    size: usize,
}

impl View for TextGapBuffer {
    type V = Seq<char>;

    /// The text: the slots before the window, then the live slots after it.
    closed spec fn view(&self) -> Seq<char> {
        self.buf@.subrange(0, self.gap_window.index as int) + self.buf@.subrange(
            self.gap_window.index + self.gap_window.window_size,
            self.size + self.gap_window.window_size,
        )
    }
}

impl TextGapBuffer {
    /// Well-formedness: the window and the text fit in the block, and the
    /// window is never empty between operations.
    pub closed spec fn wf(&self) -> bool {
        &&& 0 < self.window_size <= self.buf@.len()
        &&& self.window_size <= MAX_CHARS
        &&& self.gap_window.index <= self.size
        &&& 0 < self.gap_window.window_size
        &&& self.size + self.gap_window.window_size <= self.buf@.len()
        &&& self.size <= MAX_CHARS
        &&& self.buf@.len() <= usize::MAX
    }

    /// The logical offset at which the next insertion or deletion happens.
    pub closed spec fn point(&self) -> nat {
        self.gap_window.index as nat
    }

    /// The slot that holds the character at logical offset `i`: offsets
    /// before the edit point map to themselves, the others lie past the
    /// window.
    pub open spec fn physical(&self, i: int) -> int {
        if i < self.point() {
            i
        } else {
            i + self.gap_len()
        }
    }

    /// The number of slots the block holds.
    pub closed spec fn capacity(&self) -> nat {
        self.buf@.len()
    }

    /// The number of slots in the window at the edit point.
    pub closed spec fn gap_len(&self) -> nat {
        self.gap_window.window_size as nat
    }

    /// The size of the window that a drained window is reopened with.
    pub closed spec fn reopen_size(&self) -> nat {
        self.window_size as nat
    }

    /// What well-formedness gives a caller: the edit point lies within the
    /// text, and the text and a non-empty window fit in the block.
    pub proof fn lemma_wf(&self)
        requires
            self.wf(),
        ensures
            self.point() <= self@.len(),
            0 < self.gap_len(),
            self@.len() + self.gap_len() <= self.capacity(),
            self@.len() <= MAX_CHARS,
            0 < self.reopen_size() <= MAX_CHARS,
    {
    }

    pub fn new() -> (r: Self)
        ensures
            r.wf(),
            r@ == Seq::<char>::empty(),
            r.point() == 0,
            r.capacity() == 1200,
            r.reopen_size() == 100,
    {
        TextGapBuffer::new_in(1200, 100)
    }

    /// An empty buffer with `initial_cap` slots, reopening its window with
    /// `window_size` slots whenever it drains.
    pub fn new_in(initial_cap: usize, window_size: usize) -> (r: Self)
        requires
            0 < window_size <= initial_cap <= MAX_CHARS,
        ensures
            r.wf(),
            r@ == Seq::<char>::empty(),
            r.point() == 0,
            r.capacity() == initial_cap,
            r.gap_len() == window_size,
            r.reopen_size() == window_size,
    {
        let buf: Vec<char> = vec!['\0'; initial_cap];
        let r = TextGapBuffer {
            window_size,
            buf,
            gap_window: GapWindow { index: 0, window_size },
            size: 0,
        };
        assert(r@ =~= Seq::<char>::empty());
        r
    }

    /// Doubles the block; every slot keeps its character.
    fn grow(&mut self)
        requires
            old(self).buf@.len() <= 2 * MAX_CHARS,
        ensures
            final(self).buf@.len() == 2 * old(self).buf@.len(),
            final(self).buf@.subrange(0, old(self).buf@.len() as int) == old(self).buf@,
            final(self).window_size == old(self).window_size,
            final(self).gap_window == old(self).gap_window,
            final(self).size == old(self).size,
    {
        let cap = self.buf.len();
        self.buf.resize(2 * cap, '\0');
    }

    /// Reopens a drained window at the edit point: grows the block when the
    /// free slots cannot hold a full window, then shifts the text after the
    /// edit point right by the configured window size.
    fn resize_window(&mut self)
        requires
            old(self).gap_window.window_size == 0,
            0 < old(self).window_size <= old(self).buf@.len(),
            old(self).window_size <= MAX_CHARS,
            old(self).gap_window.index <= old(self).size <= MAX_CHARS,
            old(self).size <= old(self).buf@.len(),
            old(self).buf@.len() <= usize::MAX,
        ensures
            final(self).wf(),
            final(self)@ == old(self)@,
            final(self).point() == old(self).point(),
            final(self).gap_len() == old(self).reopen_size(),
            final(self).reopen_size() == old(self).reopen_size(),
    {
        if self.buf.len() - self.size < self.window_size {
            self.grow();
            assert(self.buf@.len() <= usize::MAX) by {
                assert(4 * MAX_CHARS <= usize::MAX);
            }
        }
        let ghost b0 = self.buf@;
        let ws = self.window_size;
        let idx = self.gap_window.index;
        let size = self.size;
        let mut k: usize = size;
        while k > idx
            invariant
                idx <= k <= size,
                size + ws <= self.buf@.len(),
                self.buf@.len() == b0.len(),
                b0.len() <= usize::MAX,
                self.size == size,
                self.window_size == ws,
                self.gap_window.index == idx,
                self.gap_window.window_size == 0,
                forall|j: int| 0 <= j < k ==> self.buf@[j] == b0[j],
                forall|j: int| k <= j < size ==> #[trigger] self.buf@[j + ws] == b0[j],
            decreases k,
        {
            k = k - 1;
            let c = self.buf[k];
            self.buf[k + ws] = c;
        }
        self.gap_window.window_size = ws;
        assert forall|j: int| 0 <= j < size implies #[trigger] old(self).buf@[j] == b0[j] by {
            assert(b0.subrange(0, old(self).buf@.len() as int)[j] == b0[j]);
        }
        assert forall|j: int| idx <= j < size implies #[trigger] self@[j] == old(self)@[j] by {
            assert(self.buf@[j + ws] == b0[j]);
        }
        assert(self@ =~= old(self)@);
    }

    /// Writes `ch` at the edit point and moves the edit point past it.
    pub fn insert_ch(&mut self, ch: char)
        requires
            old(self).wf(),
            old(self)@.len() < MAX_CHARS,
        ensures
            final(self).wf(),
            final(self)@ == old(self)@.insert(old(self).point() as int, ch),
            final(self).point() == old(self).point() + 1,
            final(self).reopen_size() == old(self).reopen_size(),
    {
        let ghost v0 = self@;
        let idx = self.gap_window.index;
        self.buf[idx] = ch;
        self.gap_window.index = idx + 1;
        self.gap_window.window_size = self.gap_window.window_size - 1;
        self.size = self.size + 1;
        assert(self@ =~= v0.insert(idx as int, ch));
        if self.gap_window.window_size == 0 {
            self.resize_window();
        }
    }

    /// Removes the character before the edit point; does nothing at the
    /// start of the text.
    pub fn delete_ch(&mut self)
        requires
            old(self).wf(),
        ensures
            final(self).wf(),
            old(self).point() == 0 ==> final(self)@ == old(self)@ && final(self).point() == 0,
            old(self).point() > 0 ==> final(self)@ == old(self)@.remove(old(self).point() - 1)
                && final(self).point() == old(self).point() - 1,
            final(self).reopen_size() == old(self).reopen_size(),
    {
        if self.gap_window.index == 0 {
            return;
        }
        let ghost v0 = self@;
        self.gap_window.index = self.gap_window.index - 1;
        self.gap_window.window_size = self.gap_window.window_size + 1;
        self.size = self.size - 1;
        assert(self@ =~= v0.remove(self.gap_window.index as int));
    }

    /// Moves the edit point to `pos`, or to the end of the text when `pos`
    /// lies past it; the text is unchanged.
    pub fn move_window(&mut self, pos: usize)
        requires
            old(self).wf(),
        ensures
            final(self).wf(),
            final(self)@ == old(self)@,
            final(self).point() == (if pos <= old(self)@.len() { pos as nat } else { old(self)@.len() }),
            final(self).gap_len() == old(self).gap_len(),
            final(self).capacity() == old(self).capacity(),
            final(self).reopen_size() == old(self).reopen_size(),
    {
        let pos = if pos > self.size { self.size } else { pos };
        let ghost b0 = self.buf@;
        let ghost v0 = self@;
        let idx = self.gap_window.index;
        let gws = self.gap_window.window_size;
        let end = idx + gws;
        let size = self.size;
        if pos < idx {
            let n = idx - pos;
            let mut k: usize = n;
            while k > 0
                invariant
                    k <= n,
                    n == idx - pos,
                    self.size == size,
                    self.window_size == old(self).window_size,
                    self.gap_window.index == idx,
                    self.gap_window.window_size == gws,
                    idx <= size,
                    0 < gws,
                    old(self).wf(),
                    end == idx + gws,
                    size + gws <= self.buf@.len(),
                    self.buf@.len() == b0.len(),
                    b0.len() <= usize::MAX,
                    forall|j: int| 0 <= j < pos + k ==> self.buf@[j] == b0[j],
                    forall|j: int| k <= j < n ==> #[trigger] self.buf@[pos + gws + j] == b0[pos + j],
                    forall|j: int| end <= j < b0.len() ==> self.buf@[j] == b0[j],
                decreases k,
            {
                k = k - 1;
                let c = self.buf[pos + k];
                self.buf[pos + gws + k] = c;
            }
            proof {
                assert forall|j: int| pos + gws <= j < end implies self.buf@[j] == b0[j - gws] by {
                    assert(self.buf@[pos + gws + (j - gws - pos)] == b0[pos + (j - gws - pos)]);
                }
            }
        } else if pos > idx {
            let n = pos - idx;
            let mut k: usize = 0;
            while k < n
                invariant
                    k <= n,
                    n == pos - idx,
                    self.size == size,
                    self.window_size == old(self).window_size,
                    self.gap_window.index == idx,
                    self.gap_window.window_size == gws,
                    idx <= size,
                    0 < gws,
                    old(self).wf(),
                    end == idx + gws,
                    pos <= size,
                    size + gws <= self.buf@.len(),
                    self.buf@.len() == b0.len(),
                    b0.len() <= usize::MAX,
                    forall|j: int| 0 <= j < idx ==> self.buf@[j] == b0[j],
                    forall|j: int| 0 <= j < k ==> #[trigger] self.buf@[idx + j] == b0[end + j],
                    forall|j: int| end + k <= j < b0.len() ==> self.buf@[j] == b0[j],
                decreases n - k,
            {
                let c = self.buf[end + k];
                self.buf[idx + k] = c;
                k = k + 1;
            }
            proof {
                assert forall|j: int| idx <= j < pos implies self.buf@[j] == b0[j + gws] by {
                    assert(self.buf@[idx + (j - idx)] == b0[end + (j - idx)]);
                }
            }
        }
        self.gap_window.index = pos;
        assert(self@ =~= v0);
    }

    pub fn len(&self) -> (r: usize)
        requires
            self.wf(),
        ensures
            r == self@.len(),
            r <= MAX_CHARS,
    {
        self.size
    }

    /// The character at logical offset `relative_index`.
    pub fn get(&self, relative_index: usize) -> (r: Result<char, BufferError>)
        requires
            self.wf(),
        ensures
            relative_index < self@.len() ==> r == Ok::<char, BufferError>(self@[relative_index as int]),
            relative_index >= self@.len() ==> r == Err::<char, BufferError>(BufferError::OutOfRange),
    {
        match self.get_absolute_index(relative_index) {
            Ok(p) => Ok(self.buf[p]),
            Err(e) => Err(e),
        }
    }

    /// The slot of the character at a logical offset.
    pub fn get_absolute_index(&self, relative_index: usize) -> (r: Result<usize, BufferError>)
        requires
            self.wf(),
        ensures
            relative_index < self@.len() ==> r == Ok::<usize, BufferError>(
                self.physical(relative_index as int) as usize,
            ),
            relative_index < self@.len() ==> self.physical(relative_index as int) < self.capacity(),
            relative_index >= self@.len() ==> r == Err::<usize, BufferError>(BufferError::OutOfRange),
    {
        if relative_index >= self.size {
            return Err(BufferError::OutOfRange);
        }
        if relative_index >= self.gap_window.index {
            Ok(relative_index + self.gap_window.window_size)
        } else {
            Ok(relative_index)
        }
    }

    /// The logical offset of the character in slot `absolute_index`; an
    /// error for a slot in the window or past the text.
    pub fn get_relative_index(&self, absolute_index: usize) -> (r: Result<usize, BufferError>)
        requires
            self.wf(),
        ensures
            match r {
                Ok(i) => i < self@.len() && self.physical(i as int) == absolute_index,
                Err(_) => forall|i: int| 0 <= i < self@.len() ==> self.physical(i) != absolute_index,
            },
    {
        if absolute_index >= self.size + self.gap_window.window_size {
            return Err(BufferError::OutOfRange);
        }
        let end = self.gap_window.index + self.gap_window.window_size;
        if absolute_index >= end {
            Ok(absolute_index - self.gap_window.window_size)
        } else if absolute_index < self.gap_window.index {
            Ok(absolute_index)
        } else {
            Err(BufferError::OutOfRange)
        }
    }
}


/// The text after inserting each `(pos, ch)` of `ops` in turn into an empty
/// text, each at its position clamped to the length of the text then: the
/// effect of `move_window(pos)` followed by `insert_ch(ch)` for each.
pub open spec fn after_inserts(ops: Seq<(nat, char)>) -> Seq<char>
    decreases ops.len(),
{
    if ops.len() == 0 {
        Seq::empty()
    } else {
        let s = after_inserts(ops.drop_last());
        let p = ops.last().0;
        s.insert(
            if p <= s.len() {
                p as int
            } else {
                s.len() as int
            },
            ops.last().1,
        )
    }
}

/// After any `n` insertions at any positions the text holds `n`
/// characters, each character standing where its insertion put it among
/// the characters present then.
pub proof fn lemma_inserts_len(ops: Seq<(nat, char)>)
    ensures
        after_inserts(ops).len() == ops.len(),
        ops.len() > 0 ==> after_inserts(ops)[if ops.last().0 <= ops.len() - 1 {
            ops.last().0 as int
        } else {
            ops.len() - 1
        }] == ops.last().1,
    decreases ops.len(),
{
    if ops.len() > 0 {
        lemma_inserts_len(ops.drop_last());
    }
}

/// One round of `move_window(pos)` then `insert_ch(ch)`, as their
/// contracts state it (the edit point clamped to the length, then the
/// character inserted there), takes the text of the earlier rounds to the
/// text of all rounds.
pub proof fn lemma_insert_round(ops: Seq<(nat, char)>, pos: nat, ch: char)
    ensures
        after_inserts(ops).insert(
            if pos <= after_inserts(ops).len() {
                pos as int
            } else {
                after_inserts(ops).len() as int
            },
            ch,
        ) == after_inserts(ops.push((pos, ch))),
        after_inserts(ops.push((pos, ch))).len() == ops.len() + 1,
{
    assert(ops.push((pos, ch)).drop_last() =~= ops);
    lemma_inserts_len(ops.push((pos, ch)));
}

/// Inserting a character at the edit point and then deleting before the
/// edit point, which then lies just after the new character, gives back
/// the text as it was, with the edit point where it was.
pub proof fn lemma_insert_then_delete(s: Seq<char>, p: int, ch: char)
    requires
        0 <= p <= s.len(),
    ensures
        s.insert(p, ch).remove((p + 1) - 1) == s,
        s.insert(p, ch).len() == s.len() + 1,
{
    assert(s.insert(p, ch).remove(p) =~= s);
}

} // verus!
