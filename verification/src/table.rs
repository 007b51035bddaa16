//! The piece table itself: buffers, piece sequence, and the editing
//! operations.

use crate::piece::{
    add_tail_at, border_at, buf_view, can_join, content, grown, insert_piece, joined,
    lemma_border_locate, lemma_border_unique, lemma_content_concat, lemma_content_empty,
    lemma_content_len, lemma_content_singleton, lemma_delete_remove, lemma_delete_shrink_back,
    lemma_delete_shrink_front, lemma_delete_split, lemma_insert_border, lemma_insert_extend,
    lemma_insert_split, lemma_join_neighbors, lemma_prefix_len_mono, lemma_prefix_len_nonneg,
    lemma_prefix_len_strict_mono, lemma_total_len_remove, lemma_two_lengths_bounded, piece_ok,
    pieces_ok, prefix_len, shrunk_back, shrunk_front, span, split_deleted, split_first,
    split_inserted, split_second, total_len, Buffer, Piece,
};
use vstd::prelude::*;
use vstd::string::StringSliceAdditionalSpecFns;

verus! {

/// The error returned when an edit names a position outside the text.
#[derive(Clone, Copy, Debug, PartialEq, Eq, Structural)]
pub enum PieceTableError {
    IndexOutOfRange,
}

/// A piece table over elements of type `T`.
///
/// The view of the table (`self@`) is the logical text: the concatenation,
/// in order, of the spans that the pieces select from the two buffers.
#[derive(Debug)]
pub struct PieceTable<T> {
    pub(crate) read_buf: Vec<T>,
    pub(crate) add_buf: Vec<T>,
    pub(crate) pieces: Vec<Piece>,
}

impl<T> View for PieceTable<T> {
    type V = Seq<T>;

    closed spec fn view(&self) -> Seq<T> {
        content(self.read_buf@, self.add_buf@, self.pieces@)
    }
}

impl<T> PieceTable<T> {
    /// Every stored piece is non-empty and lies inside its buffer, and the
    /// piece lengths add up to a representable total.
    #[verifier::type_invariant]
    pub(crate) open spec fn wf(self) -> bool {
        &&& pieces_ok(self.read_buf@, self.add_buf@, self.pieces@)
        &&& total_len(self.pieces@) <= usize::MAX
    }

    /// The number of pieces currently describing the text.
    pub closed spec fn spec_piece_count(&self) -> nat {
        self.pieces@.len()
    }

    /// The number of elements held in the append buffer.
    pub closed spec fn spec_append_len(&self) -> nat {
        self.add_buf@.len()
    }

    /// Whether `position` coincides with a boundary between two pieces, or
    /// with either end of the text.
    pub closed spec fn spec_is_border(&self, position: int) -> bool {
        border_at(self.pieces@, position)
    }

    /// Whether the piece ending at `position` is an append piece whose span
    /// ends exactly at the current end of the append buffer. An insertion at
    /// `position` then extends that piece in place instead of adding one.
    pub closed spec fn spec_extends_tail(&self, position: int) -> bool {
        add_tail_at(self.add_buf@.len() as int, self.pieces@, position)
    }
}

/// The view of a table is the text its pieces spell out. The view itself
/// is kept opaque outside this module; sibling modules reason through this
/// lemma.
pub(crate) proof fn lemma_view_unfold<T>(t: &PieceTable<T>)
    ensures
        t@ == content(t.read_buf@, t.add_buf@, t.pieces@),
{
}

impl<T: Copy> PieceTable<T> {
    /// Create a new, empty piece table.
    pub fn new() -> (table: PieceTable<T>)
        ensures
            table@ == Seq::<T>::empty(),
            table.spec_piece_count() == 0,
            table.spec_append_len() == 0,
            forall|p: int| !(#[trigger] table.spec_extends_tail(p)),
            forall|p: int| #[trigger] table.spec_is_border(p) <==> p == 0,
    {
        let table = PieceTable { read_buf: Vec::new(), add_buf: Vec::new(), pieces: Vec::new() };
        proof {
            assert(table@ =~= Seq::<T>::empty());
            assert(prefix_len(table.pieces@, 0) == 0);
        }
        table
    }

    /// Create a new, empty piece table with room reserved for `buffer_capacity`
    /// appended elements and `piece_capacity` pieces.
    pub fn with_capacity(buffer_capacity: usize, piece_capacity: usize) -> (table: PieceTable<T>)
        ensures
            table@ == Seq::<T>::empty(),
            table.spec_piece_count() == 0,
            table.spec_append_len() == 0,
            forall|p: int| !(#[trigger] table.spec_extends_tail(p)),
            forall|p: int| #[trigger] table.spec_is_border(p) <==> p == 0,
    {
        let table = PieceTable {
            read_buf: Vec::new(),
            add_buf: Vec::with_capacity(buffer_capacity),
            pieces: Vec::with_capacity(piece_capacity),
        };
        proof {
            assert(table@ =~= Seq::<T>::empty());
            assert(prefix_len(table.pieces@, 0) == 0);
        }
        table
    }

    /// Set `src` as the read-only buffer of a still-empty table. The whole
    /// of `src` becomes the initial text, held by a single piece (or none,
    /// when `src` is empty).
    pub fn src(&mut self, src: &[T])
        requires
            old(self).spec_piece_count() == 0,
        ensures
            final(self)@ == src@,
            final(self).spec_piece_count() == (if src@.len() == 0 {
                0nat
            } else {
                1nat
            }),
            final(self).spec_append_len() == old(self).spec_append_len(),
            forall|p: int| !(#[trigger] final(self).spec_extends_tail(p)),
            forall|p: int| #[trigger] final(self).spec_is_border(p) <==> (p == 0 || p
                == src@.len()),
    {
        proof {
            use_type_invariant(&*self);
        }
        let length = src.len();
        let copied = vstd::slice::slice_to_vec(src);
        self.read_buf = copied;
        if length > 0 {
            let mut pieces: Vec<Piece> = Vec::new();
            pieces.push(Piece { buffer: Buffer::Read, start: 0, length });
            proof {
                assert(prefix_len(pieces@, 0) == 0);
            }
            self.pieces = pieces;
            proof {
                let p = Piece { buffer: Buffer::Read, start: 0, length };
                assert(self.pieces@ =~= seq![p]);
                assert(self.pieces@[0] == p);
                assert(self.pieces@.drop_first() =~= Seq::<Piece>::empty());
                assert(content(self.read_buf@, self.add_buf@, Seq::<Piece>::empty())
                    =~= Seq::<T>::empty());
                assert(self@ == span(self.read_buf@, self.add_buf@, p) + content(
                    self.read_buf@,
                    self.add_buf@,
                    self.pieces@.drop_first(),
                ));
                assert(span(self.read_buf@, self.add_buf@, p) =~= src@);
                assert(self@ =~= src@);
                assert forall|q: int| !(#[trigger] self.spec_extends_tail(q)) by {
                    if self.spec_extends_tail(q) {
                        let j = choose|j: int|
                            1 <= j <= self.pieces@.len() && #[trigger] prefix_len(
                                self.pieces@,
                                j,
                            ) == q && self.pieces@[j - 1].buffer == Buffer::Add
                                && self.pieces@[j - 1].start + self.pieces@[j - 1].length
                                == self.add_buf@.len();
                        assert(self.pieces@[0].buffer == Buffer::Read);
                    }
                }
                assert forall|q: int| #[trigger] self.spec_is_border(q) <==> (q == 0 || q
                    == src@.len()) by {
                    assert(prefix_len(self.pieces@, 0) == 0);
                    assert(prefix_len(self.pieces@, 1) == length);
                    if self.spec_is_border(q) {
                        let j = choose|j: int|
                            0 <= j <= self.pieces@.len() && #[trigger] prefix_len(
                                self.pieces@,
                                j,
                            ) == q;
                    }
                }
            }
        } else {
            proof {
                assert(self@ =~= src@);
                assert(prefix_len(self.pieces@, 0) == 0);
            }
        }
    }

    /// Total length of the logical text.
    pub fn len(&self) -> (n: usize)
        ensures
            n == self@.len(),
    {
        proof {
            use_type_invariant(&*self);
            lemma_content_len(self.read_buf@, self.add_buf@, self.pieces@);
        }
        let mut total: usize = 0;
        let mut i: usize = 0;
        while i < self.pieces.len()
            invariant
                i <= self.pieces@.len(),
                total == prefix_len(self.pieces@, i as int),
                self.wf(),
            decreases self.pieces@.len() - i,
        {
            proof {
                lemma_prefix_len_nonneg(self.pieces@, i as int);
                lemma_prefix_len_mono(self.pieces@, i as int + 1, self.pieces@.len() as int);
            }
            total = total + self.pieces[i].length;
            i = i + 1;
        }
        total
    }

    /// The number of pieces currently describing the text.
    pub fn piece_count(&self) -> (n: usize)
        ensures
            n == self.spec_piece_count(),
    {
        self.pieces.len()
    }

    /// Index of the piece whose span contains `position`; the piece count
    /// when `position` lies at or past the end of the text.
    fn find_piece_at_position(&self, position: usize) -> (idx: usize)
        ensures
            idx <= self.pieces@.len(),
            position < total_len(self.pieces@) ==> idx < self.pieces@.len() && prefix_len(
                self.pieces@,
                idx as int,
            ) <= position && position < prefix_len(self.pieces@, idx as int)
                + self.pieces@[idx as int].length,
            position >= total_len(self.pieces@) ==> idx == self.pieces@.len(),
    {
        proof {
            use_type_invariant(&*self);
        }
        if position == 0 {
            proof {
                if self.pieces@.len() == 0 {
                    assert(total_len(self.pieces@) == 0);
                } else {
                    lemma_prefix_len_strict_mono(
                        self.read_buf@,
                        self.add_buf@,
                        self.pieces@,
                        0,
                        self.pieces@.len() as int,
                    );
                    assert(piece_ok(self.read_buf@, self.add_buf@, self.pieces@[0]));
                    assert(prefix_len(self.pieces@, 0) == 0);
                }
            }
            return 0;
        }
        let mut counter: usize = 0;
        let mut i: usize = 0;
        while i < self.pieces.len()
            invariant
                i <= self.pieces@.len(),
                counter == prefix_len(self.pieces@, i as int),
                position >= counter,
                self.wf(),
            decreases self.pieces@.len() - i,
        {
            let piece_length = self.pieces[i].length;
            proof {
                lemma_prefix_len_nonneg(self.pieces@, i as int);
                lemma_prefix_len_mono(self.pieces@, i as int + 1, self.pieces@.len() as int);
            }
            if position < counter + piece_length {
                return i;
            }
            counter = counter + piece_length;
            i = i + 1;
        }
        i
    }

    /// Whether `position` falls exactly on a piece boundary, including both
    /// ends of the text.
    fn position_is_at_border(&self, position: usize) -> (r: bool)
        ensures
            r == border_at(self.pieces@, position as int),
    {
        proof {
            use_type_invariant(&*self);
        }
        if position == 0 {
            proof {
                assert(prefix_len(self.pieces@, 0) == 0);
            }
            return true;
        }
        let mut counter: usize = 0;
        let mut i: usize = 0;
        proof {
            assert(prefix_len(self.pieces@, 0) == 0);
        }
        while i < self.pieces.len()
            invariant
                i <= self.pieces@.len(),
                counter == prefix_len(self.pieces@, i as int),
                position != 0,
                forall|j: int| 0 <= j <= i ==> #[trigger] prefix_len(self.pieces@, j) != position,
                self.wf(),
            decreases self.pieces@.len() - i,
        {
            let piece_length = self.pieces[i].length;
            proof {
                lemma_prefix_len_nonneg(self.pieces@, i as int);
                lemma_prefix_len_mono(self.pieces@, i as int + 1, self.pieces@.len() as int);
            }
            if position == counter + piece_length {
                proof {
                    assert(prefix_len(self.pieces@, i as int + 1) == position);
                }
                return true;
            }
            counter = counter + piece_length;
            i = i + 1;
        }
        false
    }

    /// Resolve `index` to the piece containing it and the offset of `index`
    /// inside that piece.
    fn split_piece_index_and_length(&self, index: usize) -> (r: (usize, usize))
        requires
            index < total_len(self.pieces@),
        ensures
            r.0 < self.pieces@.len(),
            prefix_len(self.pieces@, r.0 as int) + r.1 == index,
            r.1 < self.pieces@[r.0 as int].length,
    {
        proof {
            use_type_invariant(&*self);
        }
        let mut counter: usize = 0;
        let mut i: usize = 0;
        while i < self.pieces.len()
            invariant
                i <= self.pieces@.len(),
                counter == prefix_len(self.pieces@, i as int),
                index >= counter,
                index < total_len(self.pieces@),
                self.wf(),
            decreases self.pieces@.len() - i,
        {
            let piece_length = self.pieces[i].length;
            proof {
                lemma_prefix_len_nonneg(self.pieces@, i as int);
                lemma_prefix_len_mono(self.pieces@, i as int + 1, self.pieces@.len() as int);
            }
            if index < counter + piece_length {
                return (i, index - counter);
            }
            counter = counter + piece_length;
            i = i + 1;
        }
        proof {
            assert(false);
        }
        (0, 0)
    }

    /// Replace the piece at `piece_index` by two pieces with the same
    /// buffer and contiguous spans, split `split_length` elements in.
    fn divide_piece(pieces: &mut Vec<Piece>, piece_index: usize, split_length: usize)
        requires
            piece_index < old(pieces)@.len(),
            0 < split_length < old(pieces)@[piece_index as int].length,
            old(pieces)@[piece_index as int].start + old(pieces)@[piece_index as int].length
                <= usize::MAX,
        ensures
            final(pieces)@ == old(pieces)@.take(piece_index as int) + seq![
                split_first(old(pieces)@[piece_index as int], split_length),
                split_second(old(pieces)@[piece_index as int], split_length),
            ] + old(pieces)@.skip(piece_index as int + 1),
    {
        let piece_total = pieces.len();
        let piece = pieces.remove(piece_index);
        proof {
            assert(piece_index < piece_total);
        }
        pieces.insert(
            piece_index,
            Piece { buffer: piece.buffer, start: piece.start, length: split_length },
        );
        pieces.insert(
            piece_index + 1,
            Piece {
                buffer: piece.buffer,
                start: piece.start + split_length,
                length: piece.length - split_length,
            },
        );
        proof {
            assert(pieces@ =~= old(pieces)@.take(piece_index as int) + seq![
                split_first(old(pieces)@[piece_index as int], split_length),
                split_second(old(pieces)@[piece_index as int], split_length),
            ] + old(pieces)@.skip(piece_index as int + 1));
        }
    }

    /// Insert `element` into the text at position `index`.
    ///
    /// On success the logical text gains `element` at position `index`; the
    /// piece count grows by two when the insertion splits a piece, by one
    /// when it lands on a border, and not at all when it extends the piece
    /// written by the previous insertion (the coalescing fast path that
    /// bounds piece growth under sequential typing, which every insertion
    /// re-arms at the position just after itself). An index past the end of
    /// the text is rejected and the table is left unchanged.
    pub fn insert(&mut self, element: T, index: usize) -> (result: Result<(), PieceTableError>)
        requires
            old(self)@.len() < usize::MAX,
        ensures
            index <= old(self)@.len() ==> ({
                &&& result is Ok
                &&& final(self)@ == old(self)@.insert(index as int, element)
                &&& final(self).spec_append_len() == old(self).spec_append_len() + 1
                &&& final(self).spec_piece_count() == (if old(self).spec_extends_tail(
                    index as int,
                ) {
                    old(self).spec_piece_count()
                } else if old(self).spec_is_border(index as int) {
                    old(self).spec_piece_count() + 1
                } else {
                    old(self).spec_piece_count() + 2
                })
                &&& final(self).spec_extends_tail(index as int + 1)
            }),
            index > old(self)@.len() ==> result == Err::<(), PieceTableError>(
                PieceTableError::IndexOutOfRange,
            ) && *final(self) == *old(self),
    {
        proof {
            use_type_invariant(&*self);
            lemma_content_len(self.read_buf@, self.add_buf@, self.pieces@);
        }
        let ghost read0 = self.read_buf@;
        let ghost add0 = self.add_buf@;
        let ghost pieces0 = self.pieces@;
        let ghost at = index as int;
        let ghost total0 = total_len(pieces0);

        let append_buf_len = self.add_buf.len();
        let idx = self.find_piece_at_position(index);
        let is_border = self.position_is_at_border(index);

        if idx == self.pieces.len() && !is_border {
            proof {
                // `find` puts `index` at the piece count only when it lies at
                // or past the end, and `index == total` would be a border.
                if at == total0 {
                    assert(prefix_len(pieces0, pieces0.len() as int) == at);
                    assert(border_at(pieces0, at));
                }
            }
            return Err(PieceTableError::IndexOutOfRange);
        }
        proof {
            if is_border {
                let j = choose|j: int|
                    0 <= j <= pieces0.len() && #[trigger] prefix_len(pieces0, j) == at;
                lemma_prefix_len_mono(pieces0, j, pieces0.len() as int);
            }
            assert(at <= total0);
        }

        let read_buf_len = self.read_buf.len();
        let mut pieces: Vec<Piece> = Vec::new();
        core::mem::swap(&mut pieces, &mut self.pieces);
        let mut add_buf: Vec<T> = Vec::new();
        core::mem::swap(&mut add_buf, &mut self.add_buf);
        add_buf.push(element);
        let new_add_len = add_buf.len();
        self.add_buf = add_buf;
        let ghost add1 = self.add_buf@;
        proof {
            assert(add1.len() == new_add_len);
            assert(add0.len() < usize::MAX);
        }

        // Fast path: `index` borders the end of an append piece that is the
        // tail of the append buffer, so extend that piece in place.
        if is_border && idx != 0 {
            let prev = pieces[idx - 1];
            proof {
                assert(piece_ok(read0, add0, pieces0[idx as int - 1]));
            }
            if prev.buffer == Buffer::Add && prev.start + prev.length == append_buf_len {
                let extended = Piece {
                    buffer: Buffer::Add,
                    start: prev.start,
                    length: prev.length + 1,
                };
                pieces.set(idx - 1, extended);
                proof {
                    lemma_border_locate(read0, add0, pieces0, at, idx as int);
                    assert(extended == grown(pieces0[idx as int - 1]));
                    assert(pieces@ == pieces0.update(idx as int - 1, grown(
                        pieces0[idx as int - 1],
                    )));
                    lemma_insert_extend(read0, add0, element, pieces0, idx as int, at);
                    lemma_content_len(read0, add1, pieces@);
                    // the fast-path condition is the tail-extension predicate,
                    // both before the insertion and just after it
                    assert(add_tail_at(add0.len() as int, pieces0, at));
                    assert(pieces@[idx as int - 1] == grown(pieces0[idx as int - 1]));
                    assert(add_tail_at(add1.len() as int, pieces@, at + 1));
                }
                self.pieces = pieces;
                return Ok(());
            }
        }

        // Border without coalescing: a new append piece between two pieces.
        if is_border {
            pieces.insert(idx, Piece { buffer: Buffer::Add, start: append_buf_len, length: 1 });
            proof {
                let np = insert_piece(add0.len() as int);
                lemma_border_locate(read0, add0, pieces0, at, idx as int);
                assert(pieces@ == pieces0.insert(idx as int, np));
                lemma_insert_border(read0, add0, element, pieces0, idx as int, at);
                lemma_content_len(read0, add1, pieces@);
                // no coalescing was possible at `index`
                assert(!add_tail_at(add0.len() as int, pieces0, at)) by {
                    if add_tail_at(add0.len() as int, pieces0, at) {
                        let j = choose|j: int|
                            1 <= j <= pieces0.len() && #[trigger] prefix_len(pieces0, j) == at
                                && pieces0[j - 1].buffer == Buffer::Add && pieces0[j - 1].start
                                + pieces0[j - 1].length == add0.len();
                        lemma_border_unique(read0, add0, pieces0, at, j, idx as int);
                        assert(piece_ok(read0, add0, pieces0[idx as int - 1]));
                    }
                }
                // the new piece is the append tail ending right after `index`
                assert(add_tail_at(add1.len() as int, pieces@, at + 1));
            }
            self.pieces = pieces;
            return Ok(());
        }

        // Mid-piece: split the containing piece and place the new append
        // piece between the two halves.
        proof {
            assert(at < total0);
            if prefix_len(pieces0, idx as int) == at {
                assert(border_at(pieces0, at));
            }
        }
        let mut counter: usize = 0;
        let mut i: usize = 0;
        while i < idx
            invariant
                i <= idx,
                idx as int <= pieces0.len(),
                counter == prefix_len(pieces0, i as int),
                pieces@ == pieces0,
                pieces_ok(read0, add0, pieces0),
                total_len(pieces0) <= usize::MAX,
            decreases idx - i,
        {
            proof {
                lemma_prefix_len_nonneg(pieces0, i as int);
                lemma_prefix_len_mono(pieces0, i as int + 1, pieces0.len() as int);
            }
            counter = counter + pieces[i].length;
            i = i + 1;
        }
        let split_index = index - counter;
        proof {
            assert(piece_ok(read0, add0, pieces0[idx as int]));
            assert(read0.len() == read_buf_len);
            assert(add0.len() == append_buf_len);
        }
        Self::divide_piece(&mut pieces, idx, split_index);
        pieces.insert(idx + 1, Piece { buffer: Buffer::Add, start: append_buf_len, length: 1 });
        proof {
            let np = insert_piece(add0.len() as int);
            let mid = pieces0.take(idx as int) + seq![
                split_first(pieces0[idx as int], split_index),
                split_second(pieces0[idx as int], split_index),
            ] + pieces0.skip(idx as int + 1);
            assert(pieces@ == mid.insert(idx as int + 1, np));
            assert(pieces@ =~= split_inserted(pieces0, idx as int, split_index, add0.len() as int));
            lemma_insert_split(read0, add0, element, pieces0, idx as int, split_index, at);
            lemma_content_len(read0, add1, pieces@);
            // there is no border at `index`, so no coalescing either
            assert(!add_tail_at(add0.len() as int, pieces0, at)) by {
                if add_tail_at(add0.len() as int, pieces0, at) {
                    let j = choose|j: int|
                        1 <= j <= pieces0.len() && #[trigger] prefix_len(pieces0, j) == at
                            && pieces0[j - 1].buffer == Buffer::Add && pieces0[j - 1].start
                            + pieces0[j - 1].length == add0.len();
                    assert(border_at(pieces0, at));
                }
            }
            // the new piece is the append tail ending right after `index`
            assert(add_tail_at(add1.len() as int, pieces@, at + 1));
        }
        self.pieces = pieces;
        Ok(())
    }

    /// Remove the piece at `piece_index`; when the two pieces left adjacent
    /// by the removal reference the same buffer with contiguous spans, merge
    /// them into one piece. A removed first or last piece leaves no pair to
    /// merge, so the removal alone suffices.
    fn delete_and_join(pieces: &mut Vec<Piece>, piece_index: usize)
        requires
            piece_index < old(pieces)@.len(),
            total_len(old(pieces)@) <= usize::MAX,
            forall|k: int| 0 <= k < old(pieces)@.len() ==> (#[trigger] old(pieces)@[k]).start
                + old(pieces)@[k].length <= usize::MAX,
        ensures
            ({
                let removed = old(pieces)@.remove(piece_index as int);
                if 1 <= piece_index < removed.len() && can_join(
                    removed[piece_index as int - 1],
                    removed[piece_index as int],
                ) {
                    final(pieces)@ == removed.update(
                        piece_index as int - 1,
                        joined(removed[piece_index as int - 1], removed[piece_index as int]),
                    ).remove(piece_index as int)
                } else {
                    final(pieces)@ == removed
                }
            }),
    {
        let ghost pieces0 = pieces@;
        pieces.remove(piece_index);
        if piece_index == 0 || piece_index >= pieces.len() {
            return;
        }
        let prev = pieces[piece_index - 1];
        let next = pieces[piece_index];
        proof {
            lemma_total_len_remove(pieces0, piece_index as int);
            lemma_prefix_len_nonneg(pieces0, piece_index as int);
            lemma_two_lengths_bounded(pieces@, piece_index as int);
            lemma_prefix_len_nonneg(pieces@, piece_index as int - 1);
            lemma_prefix_len_mono(pieces@, piece_index as int + 1, pieces@.len() as int);
        }
        if prev.buffer == next.buffer && prev.start + prev.length == next.start {
            pieces.set(
                piece_index - 1,
                Piece { buffer: prev.buffer, start: prev.start, length: prev.length + next.length },
            );
            pieces.remove(piece_index);
        }
    }

    /// Delete the single element of the text at position `index`.
    ///
    /// On success the logical text loses the element at `index`. The piece
    /// count grows by at most one (an interior deletion splits a piece);
    /// deleting a piece's only element removes that piece and merges its
    /// newly adjacent neighbors when their spans are contiguous in the same
    /// buffer. An index at or past the end of the text is rejected and the
    /// table is left unchanged.
    pub fn delete(&mut self, index: usize) -> (result: Result<(), PieceTableError>)
        ensures
            index < old(self)@.len() ==> ({
                &&& result is Ok
                &&& final(self)@ == old(self)@.remove(index as int)
                &&& final(self).spec_piece_count() <= old(self).spec_piece_count() + 1
                &&& final(self).spec_append_len() == old(self).spec_append_len()
            }),
            index >= old(self)@.len() ==> result == Err::<(), PieceTableError>(
                PieceTableError::IndexOutOfRange,
            ) && *final(self) == *old(self),
    {
        proof {
            use_type_invariant(&*self);
            lemma_content_len(self.read_buf@, self.add_buf@, self.pieces@);
        }
        let ghost read0 = self.read_buf@;
        let ghost add0 = self.add_buf@;
        let ghost pieces0 = self.pieces@;
        let ghost at = index as int;

        let total = self.len();
        if index >= total {
            return Err(PieceTableError::IndexOutOfRange);
        }
        let (piece_index, index_in_piece) = self.split_piece_index_and_length(index);
        let read_buf_len = self.read_buf.len();
        let append_buf_len = self.add_buf.len();

        let mut pieces: Vec<Piece> = Vec::new();
        core::mem::swap(&mut pieces, &mut self.pieces);
        let piece = pieces[piece_index];
        proof {
            assert(piece_ok(read0, add0, pieces0[piece_index as int]));
            assert(read0.len() == read_buf_len);
            assert(add0.len() == append_buf_len);
            assert(piece.start + piece.length <= usize::MAX);
        }

        // Deleting the piece's first element: drop the head of its span;
        // a one-element piece disappears entirely.
        if index_in_piece == 0 {
            if piece.length == 1 {
                proof {
                    assert forall|k: int| 0 <= k < pieces@.len() implies (
                    #[trigger] pieces@[k]).start + pieces@[k].length <= usize::MAX by {
                        assert(piece_ok(read0, add0, pieces0[k]));
                    }
                }
                Self::delete_and_join(&mut pieces, piece_index);
                proof {
                    lemma_delete_remove(read0, add0, pieces0, piece_index as int, at);
                    let removed = pieces0.remove(piece_index as int);
                    if 1 <= piece_index && piece_index < removed.len() && can_join(
                        removed[piece_index as int - 1],
                        removed[piece_index as int],
                    ) {
                        lemma_total_len_remove(pieces0, piece_index as int);
                        lemma_content_len(read0, add0, removed);
                        lemma_two_lengths_bounded(removed, piece_index as int);
                        lemma_join_neighbors(read0, add0, removed, piece_index as int);
                    }
                    lemma_content_len(read0, add0, pieces@);
                }
            } else {
                pieces.set(
                    piece_index,
                    Piece { buffer: piece.buffer, start: piece.start + 1, length: piece.length - 1 },
                );
                proof {
                    lemma_delete_shrink_front(read0, add0, pieces0, piece_index as int, at);
                    assert(pieces@ == pieces0.update(
                        piece_index as int,
                        shrunk_front(pieces0[piece_index as int]),
                    ));
                    lemma_content_len(read0, add0, pieces@);
                }
            }
            self.pieces = pieces;
            return Ok(());
        }

        // Deleting the piece's last element: shorten its span by one.
        if index_in_piece == piece.length - 1 {
            pieces.set(
                piece_index,
                Piece { buffer: piece.buffer, start: piece.start, length: piece.length - 1 },
            );
            proof {
                lemma_delete_shrink_back(read0, add0, pieces0, piece_index as int, at);
                assert(pieces@ == pieces0.update(
                    piece_index as int,
                    shrunk_back(pieces0[piece_index as int]),
                ));
                lemma_content_len(read0, add0, pieces@);
            }
            self.pieces = pieces;
            return Ok(());
        }

        // Deleting an interior element: split the piece around it and drop
        // the deleted element from the second half.
        Self::divide_piece(&mut pieces, piece_index, index_in_piece);
        let pieces_after_split = pieces.len();
        proof {
            assert(pieces@.len() == pieces0.len() + 1);
            assert(pieces_after_split == pieces0.len() + 1);
        }
        let second = pieces[piece_index + 1];
        pieces.set(
            piece_index + 1,
            Piece { buffer: second.buffer, start: second.start + 1, length: second.length - 1 },
        );
        proof {
            assert(pieces@ =~= split_deleted(pieces0, piece_index as int, index_in_piece));
            lemma_delete_split(read0, add0, pieces0, piece_index as int, index_in_piece, at);
            lemma_content_len(read0, add0, pieces@);
        }
        self.pieces = pieces;
        Ok(())
    }

    /// The whole backing buffer a piece refers to.
    pub(crate) fn get_buffer(&self, piece: &Piece) -> (buf: &[T])
        ensures
            buf@ == buf_view(self.read_buf@, self.add_buf@, piece.buffer),
    {
        match piece.buffer {
            Buffer::Read => self.read_buf.as_slice(),
            Buffer::Add => self.add_buf.as_slice(),
        }
    }

    /// Reconstruct the full logical text by concatenating every piece's
    /// span, in sequence order.
    pub fn materialize(&self) -> (text: Vec<T>)
        ensures
            text@ == self@,
    {
        proof {
            use_type_invariant(&*self);
            assert(self.pieces@.take(0) =~= Seq::<Piece>::empty());
            lemma_content_empty::<T>(self.read_buf@, self.add_buf@);
        }
        let mut text: Vec<T> = Vec::new();
        let mut i: usize = 0;
        while i < self.pieces.len()
            invariant
                i <= self.pieces@.len(),
                text@ == content(self.read_buf@, self.add_buf@, self.pieces@.take(i as int)),
                self.wf(),
            decreases self.pieces@.len() - i,
        {
            let p = self.pieces[i];
            let buf = self.get_buffer(&p);
            let buf_len = buf.len();
            proof {
                assert(piece_ok(self.read_buf@, self.add_buf@, self.pieces@[i as int]));
                assert(span(self.read_buf@, self.add_buf@, p).take(0) =~= Seq::<T>::empty());
                assert(text@ + Seq::<T>::empty() =~= text@);
            }
            let ghost text_before = text@;
            let mut j: usize = 0;
            while j < p.length
                invariant
                    j <= p.length,
                    i < self.pieces@.len(),
                    p == self.pieces@[i as int],
                    buf@ == buf_view(self.read_buf@, self.add_buf@, p.buffer),
                    buf_len == buf@.len(),
                    piece_ok(self.read_buf@, self.add_buf@, p),
                    text@ == text_before + span(self.read_buf@, self.add_buf@, p).take(j as int),
                decreases p.length - j,
            {
                let item = *vstd::slice::slice_index_get(buf, p.start + j);
                text.push(item);
                proof {
                    assert(span(self.read_buf@, self.add_buf@, p).take(j as int + 1) =~= span(
                        self.read_buf@,
                        self.add_buf@,
                        p,
                    ).take(j as int).push(buf@[p.start + j]));
                    assert(text@ =~= text_before + span(self.read_buf@, self.add_buf@, p).take(
                        j as int + 1,
                    ));
                }
                j = j + 1;
            }
            proof {
                assert(span(self.read_buf@, self.add_buf@, p).take(p.length as int) =~= span(
                    self.read_buf@,
                    self.add_buf@,
                    p,
                ));
                assert(self.pieces@.take(i as int + 1) =~= self.pieces@.take(i as int) + seq![p]);
                lemma_content_concat(
                    self.read_buf@,
                    self.add_buf@,
                    self.pieces@.take(i as int),
                    seq![p],
                );
                lemma_content_singleton(self.read_buf@, self.add_buf@, p);
                assert(text@ == content(
                    self.read_buf@,
                    self.add_buf@,
                    self.pieces@.take(i as int + 1),
                ));
            }
            i = i + 1;
        }
        proof {
            assert(self.pieces@.take(self.pieces@.len() as int) =~= self.pieces@);
        }
        text
    }

    /// Insert every element of `slice` into the text, in order, starting at
    /// position `index`. An empty slice changes nothing; an index past the
    /// end of the text is rejected and the table is left unchanged.
    pub fn insert_slice(&mut self, slice: &[T], index: usize) -> (result: Result<
        (),
        PieceTableError,
    >)
        requires
            old(self)@.len() + slice@.len() <= usize::MAX,
        ensures
            index <= old(self)@.len() ==> ({
                &&& result is Ok
                &&& final(self)@ == old(self)@.subrange(0, index as int) + slice@ + old(
                    self,
                )@.subrange(index as int, old(self)@.len() as int)
                &&& final(self).spec_append_len() == old(self).spec_append_len() + slice@.len()
            }),
            index > old(self)@.len() && slice@.len() > 0 ==> result == Err::<(), PieceTableError>(
                PieceTableError::IndexOutOfRange,
            ) && *final(self) == *old(self),
            slice@.len() == 0 ==> result is Ok && *final(self) == *old(self),
    {
        let ghost orig = *self;
        let slice_len = slice.len();
        let mut i: usize = 0;
        while i < slice_len
            invariant
                orig == *old(self),
                i <= slice@.len(),
                slice_len == slice@.len(),
                orig@.len() + slice@.len() <= usize::MAX,
                i == 0 ==> *self == orig,
                index > orig@.len() ==> i == 0,
                index <= orig@.len() ==> self@ == orig@.subrange(0, index as int) + slice@.take(
                    i as int,
                ) + orig@.subrange(index as int, orig@.len() as int),
                index <= orig@.len() ==> self.spec_append_len() == orig.spec_append_len() + i,
            decreases slice@.len() - i,
        {
            let ghost pre = *self;
            let element = *vstd::slice::slice_index_get(slice, i);
            proof {
                if index <= orig@.len() {
                    assert(pre@.len() == orig@.len() + i);
                }
                assert(pre@.len() < usize::MAX);
            }
            let r = self.insert(element, index + i);
            match r {
                Ok(()) => {},
                Err(e) => {
                    proof {
                        // `insert` only fails past the end, so the very
                        // first insertion failed and nothing was changed.
                        assert(index + i > pre@.len());
                        assert(index > orig@.len());
                        assert(*self == orig);
                    }
                    return Err(e);
                },
            }
            proof {
                assert(index + i <= pre@.len());
                assert(index <= orig@.len());
                assert(self@ == pre@.insert(index as int + i, element));
                assert(self@ =~= orig@.subrange(0, index as int) + slice@.take(i as int + 1)
                    + orig@.subrange(index as int, orig@.len() as int));
            }
            i = i + 1;
        }
        proof {
            if slice@.len() > 0 && index <= orig@.len() {
                assert(slice@.take(slice@.len() as int) =~= slice@);
            }
            if slice@.len() == 0 {
                assert(*self == orig);
                if index <= orig@.len() {
                    assert(self@ =~= orig@.subrange(0, index as int) + slice@ + orig@.subrange(
                        index as int,
                        orig@.len() as int,
                    ));
                }
            }
        }
        Ok(())
    }

    /// Reserve room for at least `additional` more elements in the append
    /// buffer. The table is unchanged in every observable respect.
    pub fn reserve_buffer(&mut self, additional: usize)
        ensures
            final(self)@ == old(self)@,
            final(self).spec_piece_count() == old(self).spec_piece_count(),
            final(self).spec_append_len() == old(self).spec_append_len(),
    {
        proof {
            use_type_invariant(&*self);
        }
        let mut pieces: Vec<Piece> = Vec::new();
        core::mem::swap(&mut pieces, &mut self.pieces);
        let mut add_buf: Vec<T> = Vec::new();
        core::mem::swap(&mut add_buf, &mut self.add_buf);
        add_buf.reserve(additional);
        self.add_buf = add_buf;
        self.pieces = pieces;
    }

    /// Reserve room for at least `additional` more pieces. The table is
    /// unchanged in every observable respect.
    pub fn reserve_piece(&mut self, additional: usize)
        ensures
            final(self)@ == old(self)@,
            final(self).spec_piece_count() == old(self).spec_piece_count(),
            final(self).spec_append_len() == old(self).spec_append_len(),
    {
        proof {
            use_type_invariant(&*self);
        }
        let mut pieces: Vec<Piece> = Vec::new();
        core::mem::swap(&mut pieces, &mut self.pieces);
        pieces.reserve(additional);
        self.pieces = pieces;
    }

    /// Compact the table: the current text becomes the new read-only
    /// buffer, held by a single piece (or none for an empty text), and the
    /// append buffer is cleared. The text itself is unchanged.
    ///
    /// This is the in-memory half of persisting: a caller first writes
    /// `materialize()`'s result to storage and compacts only on success, so
    /// a failed write leaves the table untouched.
    pub fn compact(&mut self)
        ensures
            final(self)@ == old(self)@,
            final(self).spec_piece_count() == (if old(self)@.len() == 0 {
                0nat
            } else {
                1nat
            }),
            final(self).spec_append_len() == 0,
            forall|p: int| !(#[trigger] final(self).spec_extends_tail(p)),
            forall|p: int| #[trigger] final(self).spec_is_border(p) <==> (p == 0 || p == old(
                self,
            )@.len()),
    {
        proof {
            use_type_invariant(&*self);
        }
        let text = self.materialize();
        let text_len = text.len();
        let mut new_pieces: Vec<Piece> = Vec::new();
        if text_len > 0 {
            new_pieces.push(Piece { buffer: Buffer::Read, start: 0, length: text_len });
        }
        self.pieces = Vec::new();
        self.read_buf = text;
        self.add_buf = Vec::new();
        proof {
            assert(prefix_len(new_pieces@, 0) == 0);
        }
        self.pieces = new_pieces;
        proof {
            if text_len > 0 {
                let p = Piece { buffer: Buffer::Read, start: 0, length: text_len };
                assert(self.pieces@ =~= seq![p]);
                assert(self.pieces@[0] == p);
                assert(self.pieces@.drop_first() =~= Seq::<Piece>::empty());
                lemma_content_empty::<T>(self.read_buf@, self.add_buf@);
                assert(self@ == span(self.read_buf@, self.add_buf@, p) + content(
                    self.read_buf@,
                    self.add_buf@,
                    self.pieces@.drop_first(),
                ));
                assert(span(self.read_buf@, self.add_buf@, p) =~= self.read_buf@);
                assert(self@ =~= old(self)@);
                assert forall|q: int| !(#[trigger] self.spec_extends_tail(q)) by {
                    if self.spec_extends_tail(q) {
                        let j = choose|j: int|
                            1 <= j <= self.pieces@.len() && #[trigger] prefix_len(
                                self.pieces@,
                                j,
                            ) == q && self.pieces@[j - 1].buffer == Buffer::Add
                                && self.pieces@[j - 1].start + self.pieces@[j - 1].length
                                == self.add_buf@.len();
                        assert(self.pieces@[0].buffer == Buffer::Read);
                    }
                }
                assert forall|q: int| #[trigger] self.spec_is_border(q) <==> (q == 0 || q == old(
                    self,
                )@.len()) by {
                    assert(prefix_len(self.pieces@, 0) == 0);
                    assert(prefix_len(self.pieces@, 1) == text_len);
                    if self.spec_is_border(q) {
                        let j = choose|j: int|
                            0 <= j <= self.pieces@.len() && #[trigger] prefix_len(
                                self.pieces@,
                                j,
                            ) == q;
                    }
                }
            } else {
                assert(self@ =~= old(self)@);
                assert(prefix_len(self.pieces@, 0) == 0);
            }
        }
    }
}

impl PieceTable<u8> {
    /// Create a piece table whose initial text is the UTF-8 encoding of
    /// `buf`.
    pub fn from_str(buf: &str) -> (table: PieceTable<u8>)
        ensures
            table@ == buf.spec_bytes(),
            table.spec_piece_count() == (if buf.spec_bytes().len() == 0 {
                0nat
            } else {
                1nat
            }),
            table.spec_append_len() == 0,
            forall|p: int| !(#[trigger] table.spec_extends_tail(p)),
            forall|p: int| #[trigger] table.spec_is_border(p) <==> (p == 0 || p
                == buf.spec_bytes().len()),
    {
        let bytes: &[u8] = buf.as_bytes();
        let mut table = PieceTable::<u8>::new();
        table.src(bytes);
        table
    }
}

} // verus!
