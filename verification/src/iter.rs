//! An element-by-element cursor over a piece table's logical text.

use crate::piece::{
    lemma_content_index, lemma_content_len, lemma_prefix_len_mono, lemma_prefix_len_nonneg,
    piece_ok, pieces_ok, prefix_len, total_len,
};
use crate::table::{lemma_view_unfold, PieceTable};
use vstd::prelude::*;

verus! {

/// An iterator over the elements of a `PieceTable`'s logical text, walking
/// the pieces in sequence order. Obtained from [`PieceTable::iter`]; call
/// [`Iter::next`] until it yields `None`.
pub struct Iter<'a, T> {
    pub(crate) table: &'a PieceTable<T>,
    pub(crate) piece_idx: usize,
    pub(crate) offset: usize,
}

impl<'a, T> Iter<'a, T> {
    /// The cursor stays inside the piece sequence: `piece_idx` names the
    /// current piece (or the piece count, once exhausted) and `offset` an
    /// element of that piece.
    #[verifier::type_invariant]
    pub(crate) open spec fn cursor_ok(self) -> bool {
        &&& pieces_ok(self.table.read_buf@, self.table.add_buf@, self.table.pieces@)
        &&& total_len(self.table.pieces@) <= usize::MAX
        &&& self.piece_idx <= self.table.pieces@.len()
        &&& self.piece_idx < self.table.pieces@.len() ==> self.offset
            < self.table.pieces@[self.piece_idx as int].length
        &&& self.piece_idx == self.table.pieces@.len() ==> self.offset == 0
    }

    /// The global position of the cursor in the logical text.
    pub(crate) open spec fn spec_position(&self) -> int {
        prefix_len(self.table.pieces@, self.piece_idx as int) + self.offset
    }

    /// The elements the iterator has not yet produced, in order.
    pub closed spec fn spec_remaining(&self) -> Seq<T> {
        self.table@.skip(self.spec_position())
    }
}

impl<T: Copy> PieceTable<T> {
    /// An iterator over the logical text, element by element, in order.
    pub fn iter<'a>(&'a self) -> (it: Iter<'a, T>)
        ensures
            it.spec_remaining() == self@,
    {
        proof {
            use_type_invariant(&*self);
            if self.pieces@.len() > 0 {
                assert(piece_ok(self.read_buf@, self.add_buf@, self.pieces@[0]));
            }
        }
        let it = Iter { table: self, piece_idx: 0, offset: 0 };
        proof {
            assert(prefix_len(self.pieces@, 0) == 0);
            assert(it.spec_remaining() =~= self@);
        }
        it
    }
}

impl<'a, T: Copy> Iter<'a, T> {
    /// The next element of the text, or `None` once every element has been
    /// produced.
    pub fn next(&mut self) -> (item: Option<T>)
        ensures
            old(self).spec_remaining().len() > 0 ==> ({
                &&& item == Some(old(self).spec_remaining()[0])
                &&& final(self).spec_remaining() == old(self).spec_remaining().drop_first()
            }),
            old(self).spec_remaining().len() == 0 ==> item is None && final(self).spec_remaining()
                == old(self).spec_remaining(),
    {
        proof {
            use_type_invariant(&*self);
            lemma_view_unfold(self.table);
            lemma_content_len(self.table.read_buf@, self.table.add_buf@, self.table.pieces@);
        }
        let table = self.table;
        if self.piece_idx >= table.pieces.len() {
            proof {
                assert(self.spec_position() == total_len(table.pieces@));
                assert(self.spec_remaining() =~= Seq::<T>::empty());
            }
            return None;
        }
        let p = table.pieces[self.piece_idx];
        let buf = table.get_buffer(&p);
        let buf_len = buf.len();
        proof {
            assert(piece_ok(table.read_buf@, table.add_buf@, table.pieces@[self.piece_idx as int]));
            lemma_content_index(
                table.read_buf@,
                table.add_buf@,
                table.pieces@,
                self.piece_idx as int,
                self.offset as int,
            );
            lemma_prefix_len_nonneg(table.pieces@, self.piece_idx as int);
            lemma_prefix_len_mono(
                table.pieces@,
                self.piece_idx as int + 1,
                table.pieces@.len() as int,
            );
        }
        let item = *vstd::slice::slice_index_get(buf, p.start + self.offset);
        let ghost pos0 = self.spec_position();
        proof {
            assert(item == self.table@[pos0]);
            assert(self.spec_remaining()[0] == self.table@[pos0]);
        }
        let next_offset = self.offset + 1;
        if next_offset == p.length {
            self.offset = 0;
            proof {
                if self.piece_idx as int + 1 < self.table.pieces@.len() {
                    assert(piece_ok(
                        self.table.read_buf@,
                        self.table.add_buf@,
                        self.table.pieces@[self.piece_idx as int + 1],
                    ));
                }
            }
            self.piece_idx = self.piece_idx + 1;
            proof {
                assert(prefix_len(table.pieces@, self.piece_idx as int) == prefix_len(
                    table.pieces@,
                    self.piece_idx as int - 1,
                ) + p.length);
                assert(self.spec_position() == pos0 + 1);
            }
        } else {
            self.offset = next_offset;
        }
        proof {
            assert(self.spec_remaining() =~= old(self).spec_remaining().drop_first());
        }
        Some(item)
    }
}

} // verus!
