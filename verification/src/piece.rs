//! Piece descriptors and the mathematical model of a piece sequence.
//!
//! A piece names a contiguous span of one of the two backing buffers; the
//! concatenation of all pieces' spans, in sequence order, is the logical
//! text. The spec functions here define that reading, and the lemmas prove
//! the facts about it that the editing operations rely on.

use vstd::prelude::*;

verus! {

/// Selects which backing buffer a piece refers to: the read-only original
/// source, or the append-only edit buffer.
#[derive(Clone, Copy, Debug, PartialEq, Eq, Structural)]
pub(crate) enum Buffer {
    Read,
    Add,
}

/// A descriptor for the half-open span `[start, start + length)` of the
/// buffer named by `buffer`. Pieces of length zero are never stored.
#[derive(Clone, Copy, Debug)]
pub(crate) struct Piece {
    pub(crate) buffer: Buffer,
    pub(crate) start: usize,
    pub(crate) length: usize,
}

/// The contents of the buffer a piece refers to.
pub(crate) open spec fn buf_view<T>(read: Seq<T>, add: Seq<T>, b: Buffer) -> Seq<T> {
    match b {
        Buffer::Read => read,
        Buffer::Add => add,
    }
}

/// A piece is well formed when it is non-empty and lies inside its buffer.
pub(crate) open spec fn piece_ok<T>(read: Seq<T>, add: Seq<T>, p: Piece) -> bool {
    &&& p.length > 0
    &&& p.start + p.length <= buf_view(read, add, p.buffer).len()
}

pub(crate) open spec fn pieces_ok<T>(read: Seq<T>, add: Seq<T>, pieces: Seq<Piece>) -> bool {
    forall|i: int| 0 <= i < pieces.len() ==> piece_ok(read, add, #[trigger] pieces[i])
}

/// The elements a single piece contributes to the logical text.
pub(crate) open spec fn span<T>(read: Seq<T>, add: Seq<T>, p: Piece) -> Seq<T> {
    buf_view(read, add, p.buffer).subrange(p.start as int, p.start + p.length)
}

/// The logical text represented by a piece sequence: the concatenation of
/// every piece's span, in order.
pub(crate) open spec fn content<T>(read: Seq<T>, add: Seq<T>, pieces: Seq<Piece>) -> Seq<T>
    decreases pieces.len(),
{
    if pieces.len() == 0 {
        Seq::empty()
    } else {
        span(read, add, pieces[0]) + content(read, add, pieces.drop_first())
    }
}

/// The number of elements contributed by the first `i` pieces.
pub(crate) open spec fn prefix_len(pieces: Seq<Piece>, i: int) -> int
    decreases i,
{
    if i <= 0 {
        0
    } else {
        prefix_len(pieces, i - 1) + pieces[i - 1].length
    }
}

/// The number of elements contributed by all pieces.
pub(crate) open spec fn total_len(pieces: Seq<Piece>) -> int {
    prefix_len(pieces, pieces.len() as int)
}

/// Whether `position` falls exactly on a boundary between pieces, or at
/// either end of the sequence.
pub(crate) open spec fn border_at(pieces: Seq<Piece>, position: int) -> bool {
    exists|j: int| 0 <= j <= pieces.len() && #[trigger] prefix_len(pieces, j) == position
}

/// Whether the piece ending at `position` is an append piece whose span ends
/// exactly at offset `add_len` of the append buffer, so that an insertion at
/// `position` may extend that piece in place.
pub(crate) open spec fn add_tail_at(add_len: int, pieces: Seq<Piece>, position: int) -> bool {
    exists|j: int|
        1 <= j <= pieces.len() && #[trigger] prefix_len(pieces, j) == position
            && pieces[j - 1].buffer == Buffer::Add
            && pieces[j - 1].start + pieces[j - 1].length == add_len
}

pub(crate) proof fn lemma_prefix_len_nonneg(pieces: Seq<Piece>, i: int)
    ensures
        prefix_len(pieces, i) >= 0,
    decreases i,
{
    if i > 0 {
        lemma_prefix_len_nonneg(pieces, i - 1);
    }
}

pub(crate) proof fn lemma_prefix_len_mono(pieces: Seq<Piece>, i: int, j: int)
    requires
        i <= j,
    ensures
        prefix_len(pieces, i) <= prefix_len(pieces, j),
    decreases j - i,
{
    if i < j {
        lemma_prefix_len_mono(pieces, i, j - 1);
    }
}

pub(crate) proof fn lemma_prefix_len_strict_mono<T>(
    read: Seq<T>,
    add: Seq<T>,
    pieces: Seq<Piece>,
    i: int,
    j: int,
)
    requires
        pieces_ok(read, add, pieces),
        0 <= i < j <= pieces.len(),
    ensures
        prefix_len(pieces, i) < prefix_len(pieces, j),
{
    lemma_prefix_len_mono(pieces, i, j - 1);
    assert(piece_ok(read, add, pieces[j - 1]));
}

/// `prefix_len` only depends on the first `i` pieces.
pub(crate) proof fn lemma_prefix_len_agree(p1: Seq<Piece>, p2: Seq<Piece>, i: int)
    requires
        i <= p1.len(),
        i <= p2.len(),
        forall|k: int| 0 <= k < i ==> #[trigger] p1[k] == p2[k],
    ensures
        prefix_len(p1, i) == prefix_len(p2, i),
    decreases i,
{
    if i > 0 {
        lemma_prefix_len_agree(p1, p2, i - 1);
    }
}

pub(crate) proof fn lemma_prefix_len_drop_first(pieces: Seq<Piece>, i: int)
    requires
        1 <= i <= pieces.len(),
    ensures
        prefix_len(pieces, i) == pieces[0].length + prefix_len(pieces.drop_first(), i - 1),
    decreases i,
{
    if i == 1 {
        assert(prefix_len(pieces, 0) == 0);
        assert(prefix_len(pieces.drop_first(), 0) == 0);
    } else {
        lemma_prefix_len_drop_first(pieces, i - 1);
        assert(pieces.drop_first()[i - 2] == pieces[i - 1]);
    }
}

pub(crate) proof fn lemma_pieces_ok_drop_first<T>(read: Seq<T>, add: Seq<T>, pieces: Seq<Piece>)
    requires
        pieces_ok(read, add, pieces),
        pieces.len() > 0,
    ensures
        pieces_ok(read, add, pieces.drop_first()),
{
    assert forall|i: int| 0 <= i < pieces.drop_first().len() implies piece_ok(
        read,
        add,
        #[trigger] pieces.drop_first()[i],
    ) by {
        assert(pieces.drop_first()[i] == pieces[i + 1]);
    }
}

/// The logical text is exactly as long as the pieces' lengths add up to.
pub(crate) proof fn lemma_content_len<T>(read: Seq<T>, add: Seq<T>, pieces: Seq<Piece>)
    requires
        pieces_ok(read, add, pieces),
    ensures
        content(read, add, pieces).len() == total_len(pieces),
        total_len(pieces) >= 0,
    decreases pieces.len(),
{
    lemma_prefix_len_nonneg(pieces, pieces.len() as int);
    if pieces.len() > 0 {
        lemma_pieces_ok_drop_first(read, add, pieces);
        lemma_content_len(read, add, pieces.drop_first());
        lemma_prefix_len_drop_first(pieces, pieces.len() as int);
        assert(piece_ok(read, add, pieces[0]));
    }
}

pub(crate) proof fn lemma_content_empty<T>(read: Seq<T>, add: Seq<T>)
    ensures
        content(read, add, Seq::<Piece>::empty()) == Seq::<T>::empty(),
{
}

/// A single piece reads exactly its span.
pub(crate) proof fn lemma_content_singleton<T>(read: Seq<T>, add: Seq<T>, p: Piece)
    ensures
        content(read, add, seq![p]) == span(read, add, p),
{
    assert(seq![p].drop_first() =~= Seq::<Piece>::empty());
    lemma_content_empty(read, add);
    assert(content(read, add, seq![p]) == span(read, add, seq![p][0]) + content(
        read,
        add,
        seq![p].drop_first(),
    ));
    assert(span(read, add, p) + Seq::<T>::empty() =~= span(read, add, p));
}

/// Concatenating two piece sequences concatenates their texts.
pub(crate) proof fn lemma_content_concat<T>(
    read: Seq<T>,
    add: Seq<T>,
    s1: Seq<Piece>,
    s2: Seq<Piece>,
)
    ensures
        content(read, add, s1 + s2) == content(read, add, s1) + content(read, add, s2),
    decreases s1.len(),
{
    if s1.len() == 0 {
        assert(s1 + s2 =~= s2);
        assert(content(read, add, s1) + content(read, add, s2) =~= content(read, add, s2));
    } else {
        assert((s1 + s2).drop_first() =~= s1.drop_first() + s2);
        lemma_content_concat(read, add, s1.drop_first(), s2);
        assert((s1 + s2)[0] == s1[0]);
        assert(span(read, add, s1[0]) + (content(read, add, s1.drop_first()) + content(
            read,
            add,
            s2,
        )) =~= (span(read, add, s1[0]) + content(read, add, s1.drop_first())) + content(
            read,
            add,
            s2,
        ));
    }
}

/// The logical text splits at any piece boundary.
pub(crate) proof fn lemma_content_split<T>(
    read: Seq<T>,
    add: Seq<T>,
    pieces: Seq<Piece>,
    i: int,
)
    requires
        0 <= i <= pieces.len(),
    ensures
        content(read, add, pieces) == content(read, add, pieces.take(i)) + content(
            read,
            add,
            pieces.skip(i),
        ),
{
    lemma_content_concat(read, add, pieces.take(i), pieces.skip(i));
    assert(pieces.take(i) + pieces.skip(i) =~= pieces);
}

pub(crate) proof fn lemma_pieces_ok_take<T>(read: Seq<T>, add: Seq<T>, pieces: Seq<Piece>, i: int)
    requires
        pieces_ok(read, add, pieces),
        0 <= i <= pieces.len(),
    ensures
        pieces_ok(read, add, pieces.take(i)),
{
    assert forall|k: int| 0 <= k < pieces.take(i).len() implies piece_ok(
        read,
        add,
        #[trigger] pieces.take(i)[k],
    ) by {
        assert(pieces.take(i)[k] == pieces[k]);
    }
}

/// The text of the first `i` pieces has length `prefix_len(pieces, i)`.
pub(crate) proof fn lemma_content_take_len<T>(
    read: Seq<T>,
    add: Seq<T>,
    pieces: Seq<Piece>,
    i: int,
)
    requires
        pieces_ok(read, add, pieces),
        0 <= i <= pieces.len(),
    ensures
        content(read, add, pieces.take(i)).len() == prefix_len(pieces, i),
{
    lemma_pieces_ok_take(read, add, pieces, i);
    lemma_content_len(read, add, pieces.take(i));
    assert forall|k: int| 0 <= k < i implies #[trigger] pieces.take(i)[k] == pieces[k] by {}
    lemma_prefix_len_agree(pieces.take(i), pieces, i);
}

/// Extending the append buffer changes no piece's span, hence no text.
pub(crate) proof fn lemma_content_grow_add<T>(
    read: Seq<T>,
    add1: Seq<T>,
    add2: Seq<T>,
    pieces: Seq<Piece>,
)
    requires
        pieces_ok(read, add1, pieces),
        add1.len() <= add2.len(),
        forall|k: int| 0 <= k < add1.len() ==> add1[k] == #[trigger] add2[k],
    ensures
        pieces_ok(read, add2, pieces),
        content(read, add2, pieces) == content(read, add1, pieces),
    decreases pieces.len(),
{
    assert forall|i: int| 0 <= i < pieces.len() implies piece_ok(
        read,
        add2,
        #[trigger] pieces[i],
    ) by {
        assert(piece_ok(read, add1, pieces[i]));
    }
    if pieces.len() > 0 {
        lemma_pieces_ok_drop_first(read, add1, pieces);
        lemma_content_grow_add(read, add1, add2, pieces.drop_first());
        assert(piece_ok(read, add1, pieces[0]));
        assert(span(read, add2, pieces[0]) =~= span(read, add1, pieces[0]));
    }
}

/// Two adjacent pieces over contiguous spans of the same buffer read the
/// same text as the single piece covering both spans.
pub(crate) proof fn lemma_span_join<T>(read: Seq<T>, add: Seq<T>, p: Piece, q: Piece, joined: Piece)
    requires
        piece_ok(read, add, p),
        piece_ok(read, add, q),
        q.buffer == p.buffer,
        q.start == p.start + p.length,
        joined.buffer == p.buffer,
        joined.start == p.start,
        joined.length == p.length + q.length,
    ensures
        piece_ok(read, add, joined),
        span(read, add, joined) == span(read, add, p) + span(read, add, q),
{
    assert(span(read, add, joined) =~= span(read, add, p) + span(read, add, q));
}

/// The first half of a piece split `cut` elements in.
pub(crate) open spec fn split_first(p: Piece, cut: usize) -> Piece {
    Piece { buffer: p.buffer, start: p.start, length: cut }
}

/// The second half of a piece split `cut` elements in.
pub(crate) open spec fn split_second(p: Piece, cut: usize) -> Piece {
    Piece { buffer: p.buffer, start: (p.start + cut) as usize, length: (p.length - cut) as usize }
}

/// Splitting a piece in two leaves its text unchanged.
pub(crate) proof fn lemma_span_split<T>(read: Seq<T>, add: Seq<T>, p: Piece, cut: usize)
    requires
        piece_ok(read, add, p),
        0 < cut < p.length,
        p.start + p.length <= usize::MAX,
    ensures
        piece_ok(read, add, split_first(p, cut)),
        piece_ok(read, add, split_second(p, cut)),
        span(read, add, p) == span(read, add, split_first(p, cut)) + span(
            read,
            add,
            split_second(p, cut),
        ),
{
    assert(span(read, add, p) =~= span(read, add, split_first(p, cut)) + span(
        read,
        add,
        split_second(p, cut),
    ));
}

/// Concatenation of three piece sequences, spelled out.
pub(crate) proof fn lemma_content_three<T>(
    read: Seq<T>,
    add: Seq<T>,
    a: Seq<Piece>,
    m: Seq<Piece>,
    b: Seq<Piece>,
)
    ensures
        content(read, add, a + m + b) == content(read, add, a) + content(read, add, m) + content(
            read,
            add,
            b,
        ),
{
    lemma_content_concat(read, add, a + m, b);
    lemma_content_concat(read, add, a, m);
}

/// Distinct piece boundaries sit at distinct positions.
pub(crate) proof fn lemma_border_unique<T>(
    read: Seq<T>,
    add: Seq<T>,
    pieces: Seq<Piece>,
    at: int,
    j1: int,
    j2: int,
)
    requires
        pieces_ok(read, add, pieces),
        0 <= j1 <= pieces.len(),
        0 <= j2 <= pieces.len(),
        prefix_len(pieces, j1) == at,
        prefix_len(pieces, j2) == at,
    ensures
        j1 == j2,
{
    if j1 < j2 {
        lemma_prefix_len_strict_mono(read, add, pieces, j1, j2);
    }
    if j2 < j1 {
        lemma_prefix_len_strict_mono(read, add, pieces, j2, j1);
    }
}

/// When `at` is a border and `idx` is the result of locating `at`, the
/// border sits exactly at the front of piece `idx`.
pub(crate) proof fn lemma_border_locate<T>(
    read: Seq<T>,
    add: Seq<T>,
    pieces: Seq<Piece>,
    at: int,
    idx: int,
)
    requires
        pieces_ok(read, add, pieces),
        border_at(pieces, at),
        0 <= idx <= pieces.len(),
        at <= total_len(pieces),
        at < total_len(pieces) ==> idx < pieces.len() && prefix_len(pieces, idx) <= at < prefix_len(
            pieces,
            idx,
        ) + pieces[idx].length,
        at >= total_len(pieces) ==> idx == pieces.len(),
    ensures
        prefix_len(pieces, idx) == at,
{
    let j = choose|j: int| 0 <= j <= pieces.len() && #[trigger] prefix_len(pieces, j) == at;
    if at < total_len(pieces) {
        if j < idx {
            lemma_prefix_len_strict_mono(read, add, pieces, j, idx);
        }
        if j > idx {
            lemma_prefix_len_mono(pieces, idx + 1, j);
        }
    }
}

/// A piece grown by one element at the end of its span.
pub(crate) open spec fn grown(p: Piece) -> Piece {
    Piece { buffer: p.buffer, start: p.start, length: (p.length + 1) as usize }
}

/// The one-element piece recording an insertion appended at offset
/// `add_len` of the append buffer.
pub(crate) open spec fn insert_piece(add_len: int) -> Piece {
    Piece { buffer: Buffer::Add, start: add_len as usize, length: 1 }
}

/// The piece sequence after splitting piece `idx` at `cut` and slotting the
/// new append piece between the halves.
pub(crate) open spec fn split_inserted(
    pieces: Seq<Piece>,
    idx: int,
    cut: usize,
    add_len: int,
) -> Seq<Piece> {
    pieces.take(idx) + seq![
        split_first(pieces[idx], cut),
        insert_piece(add_len),
        split_second(pieces[idx], cut),
    ] + pieces.skip(idx + 1)
}

/// Inserting at the end of the append piece that is the append buffer's
/// tail: growing that piece by one inserts the pushed element at `at`.
pub(crate) proof fn lemma_insert_extend<T>(
    read: Seq<T>,
    add0: Seq<T>,
    e: T,
    pieces0: Seq<Piece>,
    idx: int,
    at: int,
)
    requires
        pieces_ok(read, add0, pieces0),
        1 <= idx <= pieces0.len(),
        prefix_len(pieces0, idx) == at,
        pieces0[idx - 1].buffer == Buffer::Add,
        pieces0[idx - 1].start + pieces0[idx - 1].length == add0.len(),
        add0.len() < usize::MAX,
    ensures
        pieces_ok(read, add0.push(e), pieces0.update(idx - 1, grown(pieces0[idx - 1]))),
        content(read, add0.push(e), pieces0.update(idx - 1, grown(pieces0[idx - 1]))) == content(
            read,
            add0,
            pieces0,
        ).insert(at, e),
        prefix_len(pieces0.update(idx - 1, grown(pieces0[idx - 1])), idx) == at + 1,
{
    let add1 = add0.push(e);
    let i1 = idx - 1;
    let prev = pieces0[i1];
    let g = grown(prev);
    let pieces1 = pieces0.update(i1, g);
    lemma_content_grow_add(read, add0, add1, pieces0);
    assert(pieces0 =~= pieces0.take(i1) + seq![prev] + pieces0.skip(i1 + 1));
    assert(pieces1 =~= pieces0.take(i1) + seq![g] + pieces0.skip(i1 + 1));
    lemma_content_three(read, add1, pieces0.take(i1), seq![prev], pieces0.skip(i1 + 1));
    lemma_content_three(read, add1, pieces0.take(i1), seq![g], pieces0.skip(i1 + 1));
    lemma_content_singleton(read, add1, prev);
    lemma_content_singleton(read, add1, g);
    lemma_content_take_len(read, add1, pieces0, i1);
    lemma_prefix_len_nonneg(pieces0, i1);
    assert(piece_ok(read, add1, g));
    assert(span(read, add1, g) =~= span(read, add1, prev).push(e));
    let ca = content(read, add1, pieces0.take(i1));
    let cb = content(read, add1, pieces0.skip(i1 + 1));
    let sp = span(read, add1, prev);
    assert(content(read, add1, pieces0) == ca + sp + cb);
    assert(content(read, add1, pieces1) == ca + sp.push(e) + cb);
    assert(prefix_len(pieces0, idx) == prefix_len(pieces0, i1) + prev.length);
    assert(ca.len() + sp.len() == at);
    let oldc = ca + sp + cb;
    assert(oldc.take(at) =~= ca + sp);
    assert(oldc.skip(at) =~= cb);
    assert((ca + sp).push(e) + cb =~= ca + sp.push(e) + cb);
    assert(content(read, add1, pieces1) =~= oldc.insert(at, e));
    assert forall|k: int| 0 <= k < pieces1.len() implies piece_ok(
        read,
        add1,
        #[trigger] pieces1[k],
    ) by {
        if k != i1 {
            assert(pieces1[k] == pieces0[k]);
            assert(piece_ok(read, add1, pieces0[k]));
        }
    }
    lemma_prefix_len_agree(pieces1, pieces0, i1);
    assert(prefix_len(pieces1, idx) == prefix_len(pieces1, i1) + g.length);
}

/// Inserting at a border without coalescing: a fresh one-element append
/// piece at position `idx` inserts the pushed element at `at`.
pub(crate) proof fn lemma_insert_border<T>(
    read: Seq<T>,
    add0: Seq<T>,
    e: T,
    pieces0: Seq<Piece>,
    idx: int,
    at: int,
)
    requires
        pieces_ok(read, add0, pieces0),
        0 <= idx <= pieces0.len(),
        prefix_len(pieces0, idx) == at,
        add0.len() < usize::MAX,
    ensures
        pieces_ok(read, add0.push(e), pieces0.insert(idx, insert_piece(add0.len() as int))),
        content(read, add0.push(e), pieces0.insert(idx, insert_piece(add0.len() as int)))
            == content(read, add0, pieces0).insert(at, e),
        pieces0.insert(idx, insert_piece(add0.len() as int))[idx] == insert_piece(
            add0.len() as int,
        ),
        prefix_len(pieces0.insert(idx, insert_piece(add0.len() as int)), idx + 1) == at + 1,
{
    let add1 = add0.push(e);
    let np = insert_piece(add0.len() as int);
    let pieces1 = pieces0.insert(idx, np);
    lemma_content_grow_add(read, add0, add1, pieces0);
    assert(pieces1 =~= pieces0.take(idx) + seq![np] + pieces0.skip(idx));
    lemma_content_three(read, add1, pieces0.take(idx), seq![np], pieces0.skip(idx));
    lemma_content_split(read, add1, pieces0, idx);
    lemma_content_take_len(read, add1, pieces0, idx);
    lemma_content_singleton(read, add1, np);
    lemma_prefix_len_nonneg(pieces0, idx);
    assert(piece_ok(read, add1, np));
    assert(span(read, add1, np) =~= seq![e]);
    let ca = content(read, add1, pieces0.take(idx));
    let cb = content(read, add1, pieces0.skip(idx));
    let oldc = content(read, add1, pieces0);
    assert(oldc == ca + cb);
    assert(ca.len() == at);
    assert(oldc.take(at) =~= ca);
    assert(oldc.skip(at) =~= cb);
    assert(content(read, add1, pieces1) == ca + seq![e] + cb);
    assert(ca.push(e) + cb =~= ca + seq![e] + cb);
    assert(content(read, add1, pieces1) =~= oldc.insert(at, e));
    assert forall|k: int| 0 <= k < pieces1.len() implies piece_ok(
        read,
        add1,
        #[trigger] pieces1[k],
    ) by {
        if k < idx {
            assert(pieces1[k] == pieces0[k]);
            assert(piece_ok(read, add1, pieces0[k]));
        } else if k > idx {
            assert(pieces1[k] == pieces0[k - 1]);
            assert(piece_ok(read, add1, pieces0[k - 1]));
        }
    }
    assert(pieces1[idx] == np);
    assert forall|k: int| 0 <= k < idx implies #[trigger] pieces1[k] == pieces0[k] by {}
    lemma_prefix_len_agree(pieces1, pieces0, idx);
    assert(prefix_len(pieces1, idx + 1) == prefix_len(pieces1, idx) + np.length);
}

/// Inserting inside a piece: splitting it at `cut` and slotting the new
/// append piece between the halves inserts the pushed element at `at`.
#[verifier::rlimit(60)]
pub(crate) proof fn lemma_insert_split<T>(
    read: Seq<T>,
    add0: Seq<T>,
    e: T,
    pieces0: Seq<Piece>,
    idx: int,
    cut: usize,
    at: int,
)
    requires
        pieces_ok(read, add0, pieces0),
        0 <= idx < pieces0.len(),
        prefix_len(pieces0, idx) + cut == at,
        0 < cut < pieces0[idx].length,
        pieces0[idx].start + pieces0[idx].length <= usize::MAX,
        add0.len() < usize::MAX,
    ensures
        pieces_ok(read, add0.push(e), split_inserted(pieces0, idx, cut, add0.len() as int)),
        content(read, add0.push(e), split_inserted(pieces0, idx, cut, add0.len() as int))
            == content(read, add0, pieces0).insert(at, e),
        split_inserted(pieces0, idx, cut, add0.len() as int).len() == pieces0.len() + 2,
        split_inserted(pieces0, idx, cut, add0.len() as int)[idx + 1] == insert_piece(
            add0.len() as int,
        ),
        prefix_len(split_inserted(pieces0, idx, cut, add0.len() as int), idx + 2) == at + 1,
{
    let add1 = add0.push(e);
    let pg = pieces0[idx];
    let f = split_first(pg, cut);
    let s = split_second(pg, cut);
    let np = insert_piece(add0.len() as int);
    let pieces1 = split_inserted(pieces0, idx, cut, add0.len() as int);
    lemma_content_grow_add(read, add0, add1, pieces0);
    assert(piece_ok(read, add1, pg));
    lemma_span_split(read, add1, pg, cut);
    lemma_content_three(read, add1, pieces0.take(idx), seq![f, np, s], pieces0.skip(idx + 1));
    assert(seq![f, np, s] =~= seq![f] + seq![np] + seq![s]);
    lemma_content_three(read, add1, seq![f], seq![np], seq![s]);
    lemma_content_singleton(read, add1, f);
    lemma_content_singleton(read, add1, np);
    lemma_content_singleton(read, add1, s);
    lemma_prefix_len_nonneg(pieces0, idx);
    assert(piece_ok(read, add1, np));
    assert(span(read, add1, np) =~= seq![e]);
    assert(pieces0 =~= pieces0.take(idx) + seq![pg] + pieces0.skip(idx + 1));
    lemma_content_three(read, add1, pieces0.take(idx), seq![pg], pieces0.skip(idx + 1));
    lemma_content_singleton(read, add1, pg);
    lemma_content_take_len(read, add1, pieces0, idx);
    let ca = content(read, add1, pieces0.take(idx));
    let cb = content(read, add1, pieces0.skip(idx + 1));
    let spf = span(read, add1, f);
    let sps = span(read, add1, s);
    let oldc = content(read, add1, pieces0);
    assert(oldc == ca + span(read, add1, pg) + cb);
    assert(span(read, add1, pg) == spf + sps);
    assert(content(read, add1, seq![f, np, s]) == spf + seq![e] + sps);
    assert(content(read, add1, pieces1) == ca + (spf + seq![e] + sps) + cb);
    assert(ca.len() == prefix_len(pieces0, idx));
    assert(ca.len() + spf.len() == at);
    assert(oldc =~= (ca + spf) + (sps + cb));
    assert(oldc.take(at) =~= ca + spf);
    assert(oldc.skip(at) =~= sps + cb);
    assert((ca + spf).push(e) + (sps + cb) =~= ca + (spf + seq![e] + sps) + cb);
    assert(content(read, add1, pieces1) =~= oldc.insert(at, e));
    assert forall|k: int| 0 <= k < pieces1.len() implies piece_ok(
        read,
        add1,
        #[trigger] pieces1[k],
    ) by {
        if k < idx {
            assert(pieces1[k] == pieces0[k]);
            assert(piece_ok(read, add1, pieces0[k]));
        } else if k >= idx + 3 {
            assert(pieces1[k] == pieces0[k - 2]);
            assert(piece_ok(read, add1, pieces0[k - 2]));
        }
    }
    assert(pieces1[idx] == f);
    assert(pieces1[idx + 1] == np);
    assert forall|k: int| 0 <= k < idx implies #[trigger] pieces1[k] == pieces0[k] by {}
    lemma_prefix_len_agree(pieces1, pieces0, idx);
    assert(prefix_len(pieces1, idx + 1) == prefix_len(pieces1, idx) + f.length);
    assert(prefix_len(pieces1, idx + 2) == prefix_len(pieces1, idx + 1) + np.length);
}

/// A piece with its first element dropped.
pub(crate) open spec fn shrunk_front(p: Piece) -> Piece {
    Piece { buffer: p.buffer, start: (p.start + 1) as usize, length: (p.length - 1) as usize }
}

/// A piece with its last element dropped.
pub(crate) open spec fn shrunk_back(p: Piece) -> Piece {
    Piece { buffer: p.buffer, start: p.start, length: (p.length - 1) as usize }
}

/// Whether two pieces are neighbors over contiguous spans of one buffer.
pub(crate) open spec fn can_join(p: Piece, q: Piece) -> bool {
    q.buffer == p.buffer && q.start == p.start + p.length
}

/// The single piece covering the spans of two joinable pieces.
pub(crate) open spec fn joined(p: Piece, q: Piece) -> Piece {
    Piece { buffer: p.buffer, start: p.start, length: (p.length + q.length) as usize }
}

/// The piece sequence after deleting one interior element of piece `idx`,
/// `cut` elements in: the piece splits and the second half loses its head.
pub(crate) open spec fn split_deleted(pieces: Seq<Piece>, idx: int, cut: usize) -> Seq<Piece> {
    pieces.take(idx) + seq![
        split_first(pieces[idx], cut),
        shrunk_front(split_second(pieces[idx], cut)),
    ] + pieces.skip(idx + 1)
}

/// Piece lengths add over concatenation.
pub(crate) proof fn lemma_total_len_concat(s1: Seq<Piece>, s2: Seq<Piece>)
    ensures
        total_len(s1 + s2) == total_len(s1) + total_len(s2),
    decreases s2.len(),
{
    if s2.len() == 0 {
        assert(s1 + s2 =~= s1);
    } else {
        let s2p = s2.take(s2.len() - 1);
        lemma_total_len_concat(s1, s2p);
        assert forall|k: int| 0 <= k < s1.len() + s2.len() - 1 implies #[trigger] (s1 + s2)[k]
            == (s1 + s2p)[k] by {}
        lemma_prefix_len_agree(s1 + s2, s1 + s2p, s1.len() + s2.len() - 1);
        assert forall|k: int| 0 <= k < s2.len() - 1 implies #[trigger] s2[k] == s2p[k] by {}
        lemma_prefix_len_agree(s2, s2p, s2.len() - 1);
        assert((s1 + s2)[s1.len() + s2.len() - 1] == s2[s2.len() - 1]);
    }
}

pub(crate) proof fn lemma_total_len_remove(pieces: Seq<Piece>, i: int)
    requires
        0 <= i < pieces.len(),
    ensures
        total_len(pieces.remove(i)) == total_len(pieces) - pieces[i].length,
{
    assert(pieces =~= pieces.take(i) + seq![pieces[i]] + pieces.skip(i + 1));
    lemma_total_len_concat(pieces.take(i) + seq![pieces[i]], pieces.skip(i + 1));
    lemma_total_len_concat(pieces.take(i), seq![pieces[i]]);
    assert(pieces.remove(i) =~= pieces.take(i) + pieces.skip(i + 1));
    lemma_total_len_concat(pieces.take(i), pieces.skip(i + 1));
    assert(prefix_len(seq![pieces[i]], 0) == 0);
    assert(total_len(seq![pieces[i]]) == pieces[i].length);
}

/// Two neighboring lengths never exceed the total of all lengths.
pub(crate) proof fn lemma_two_lengths_bounded(pieces: Seq<Piece>, k: int)
    requires
        1 <= k < pieces.len(),
    ensures
        pieces[k - 1].length + pieces[k].length <= total_len(pieces),
{
    lemma_prefix_len_nonneg(pieces, k - 1);
    lemma_prefix_len_mono(pieces, k + 1, pieces.len() as int);
    assert(prefix_len(pieces, k + 1) == prefix_len(pieces, k) + pieces[k].length);
    assert(prefix_len(pieces, k) == prefix_len(pieces, k - 1) + pieces[k - 1].length);
}

/// Removing a one-element piece removes exactly its element from the text.
pub(crate) proof fn lemma_delete_remove<T>(
    read: Seq<T>,
    add: Seq<T>,
    pieces0: Seq<Piece>,
    idx: int,
    at: int,
)
    requires
        pieces_ok(read, add, pieces0),
        0 <= idx < pieces0.len(),
        prefix_len(pieces0, idx) == at,
        pieces0[idx].length == 1,
    ensures
        pieces_ok(read, add, pieces0.remove(idx)),
        content(read, add, pieces0.remove(idx)) == content(read, add, pieces0).remove(at),
{
    let p = pieces0[idx];
    let pieces1 = pieces0.remove(idx);
    assert(pieces0 =~= pieces0.take(idx) + seq![p] + pieces0.skip(idx + 1));
    assert(pieces1 =~= pieces0.take(idx) + pieces0.skip(idx + 1));
    lemma_content_three(read, add, pieces0.take(idx), seq![p], pieces0.skip(idx + 1));
    lemma_content_concat(read, add, pieces0.take(idx), pieces0.skip(idx + 1));
    lemma_content_singleton(read, add, p);
    lemma_content_take_len(read, add, pieces0, idx);
    lemma_prefix_len_nonneg(pieces0, idx);
    assert(piece_ok(read, add, p));
    let ca = content(read, add, pieces0.take(idx));
    let cb = content(read, add, pieces0.skip(idx + 1));
    let sp = span(read, add, p);
    let oldc = content(read, add, pieces0);
    assert(oldc == ca + sp + cb);
    assert(content(read, add, pieces1) == ca + cb);
    assert(sp.len() == 1);
    assert(oldc.take(at) =~= ca);
    assert(oldc.skip(at + 1) =~= cb);
    assert(ca + cb =~= oldc.remove(at));
    assert forall|k: int| 0 <= k < pieces1.len() implies piece_ok(
        read,
        add,
        #[trigger] pieces1[k],
    ) by {
        if k < idx {
            assert(pieces1[k] == pieces0[k]);
            assert(piece_ok(read, add, pieces0[k]));
        } else {
            assert(pieces1[k] == pieces0[k + 1]);
            assert(piece_ok(read, add, pieces0[k + 1]));
        }
    }
}

/// Advancing a piece's start by one removes its first element from the text.
pub(crate) proof fn lemma_delete_shrink_front<T>(
    read: Seq<T>,
    add: Seq<T>,
    pieces0: Seq<Piece>,
    idx: int,
    at: int,
)
    requires
        pieces_ok(read, add, pieces0),
        0 <= idx < pieces0.len(),
        prefix_len(pieces0, idx) == at,
        pieces0[idx].length > 1,
        pieces0[idx].start + pieces0[idx].length <= usize::MAX,
    ensures
        pieces_ok(read, add, pieces0.update(idx, shrunk_front(pieces0[idx]))),
        content(read, add, pieces0.update(idx, shrunk_front(pieces0[idx]))) == content(
            read,
            add,
            pieces0,
        ).remove(at),
{
    let p = pieces0[idx];
    let sf = shrunk_front(p);
    let pieces1 = pieces0.update(idx, sf);
    assert(pieces0 =~= pieces0.take(idx) + seq![p] + pieces0.skip(idx + 1));
    assert(pieces1 =~= pieces0.take(idx) + seq![sf] + pieces0.skip(idx + 1));
    lemma_content_three(read, add, pieces0.take(idx), seq![p], pieces0.skip(idx + 1));
    lemma_content_three(read, add, pieces0.take(idx), seq![sf], pieces0.skip(idx + 1));
    lemma_content_singleton(read, add, p);
    lemma_content_singleton(read, add, sf);
    lemma_content_take_len(read, add, pieces0, idx);
    lemma_prefix_len_nonneg(pieces0, idx);
    assert(piece_ok(read, add, p));
    assert(piece_ok(read, add, sf));
    let ca = content(read, add, pieces0.take(idx));
    let cb = content(read, add, pieces0.skip(idx + 1));
    let sp = span(read, add, p);
    let oldc = content(read, add, pieces0);
    assert(span(read, add, sf) =~= sp.skip(1));
    assert(oldc == ca + sp + cb);
    assert(content(read, add, pieces1) == ca + sp.skip(1) + cb);
    assert(oldc.take(at) =~= ca);
    assert(oldc.skip(at + 1) =~= sp.skip(1) + cb);
    assert(ca + sp.skip(1) + cb =~= ca + (sp.skip(1) + cb));
    assert(ca + sp.skip(1) + cb =~= oldc.remove(at));
    assert forall|k: int| 0 <= k < pieces1.len() implies piece_ok(
        read,
        add,
        #[trigger] pieces1[k],
    ) by {
        if k != idx {
            assert(pieces1[k] == pieces0[k]);
            assert(piece_ok(read, add, pieces0[k]));
        }
    }
}

/// Shortening a piece by one removes its last element from the text.
pub(crate) proof fn lemma_delete_shrink_back<T>(
    read: Seq<T>,
    add: Seq<T>,
    pieces0: Seq<Piece>,
    idx: int,
    at: int,
)
    requires
        pieces_ok(read, add, pieces0),
        0 <= idx < pieces0.len(),
        prefix_len(pieces0, idx) + pieces0[idx].length - 1 == at,
        pieces0[idx].length > 1,
    ensures
        pieces_ok(read, add, pieces0.update(idx, shrunk_back(pieces0[idx]))),
        content(read, add, pieces0.update(idx, shrunk_back(pieces0[idx]))) == content(
            read,
            add,
            pieces0,
        ).remove(at),
{
    let p = pieces0[idx];
    let sb = shrunk_back(p);
    let pieces1 = pieces0.update(idx, sb);
    assert(pieces0 =~= pieces0.take(idx) + seq![p] + pieces0.skip(idx + 1));
    assert(pieces1 =~= pieces0.take(idx) + seq![sb] + pieces0.skip(idx + 1));
    lemma_content_three(read, add, pieces0.take(idx), seq![p], pieces0.skip(idx + 1));
    lemma_content_three(read, add, pieces0.take(idx), seq![sb], pieces0.skip(idx + 1));
    lemma_content_singleton(read, add, p);
    lemma_content_singleton(read, add, sb);
    lemma_content_take_len(read, add, pieces0, idx);
    lemma_prefix_len_nonneg(pieces0, idx);
    assert(piece_ok(read, add, p));
    assert(piece_ok(read, add, sb));
    let ca = content(read, add, pieces0.take(idx));
    let cb = content(read, add, pieces0.skip(idx + 1));
    let sp = span(read, add, p);
    let oldc = content(read, add, pieces0);
    assert(span(read, add, sb) =~= sp.take(p.length - 1));
    assert(oldc == ca + sp + cb);
    assert(content(read, add, pieces1) == ca + sp.take(p.length - 1) + cb);
    assert(oldc.take(at) =~= ca + sp.take(p.length - 1));
    assert(oldc.skip(at + 1) =~= cb);
    assert(ca + sp.take(p.length - 1) + cb =~= oldc.remove(at));
    assert forall|k: int| 0 <= k < pieces1.len() implies piece_ok(
        read,
        add,
        #[trigger] pieces1[k],
    ) by {
        if k != idx {
            assert(pieces1[k] == pieces0[k]);
            assert(piece_ok(read, add, pieces0[k]));
        }
    }
}

/// Splitting a piece around one interior element removes that element.
pub(crate) proof fn lemma_delete_split<T>(
    read: Seq<T>,
    add: Seq<T>,
    pieces0: Seq<Piece>,
    idx: int,
    cut: usize,
    at: int,
)
    requires
        pieces_ok(read, add, pieces0),
        0 <= idx < pieces0.len(),
        prefix_len(pieces0, idx) + cut == at,
        0 < cut < pieces0[idx].length - 1,
        pieces0[idx].start + pieces0[idx].length <= usize::MAX,
    ensures
        pieces_ok(read, add, split_deleted(pieces0, idx, cut)),
        content(read, add, split_deleted(pieces0, idx, cut)) == content(
            read,
            add,
            pieces0,
        ).remove(at),
        split_deleted(pieces0, idx, cut).len() == pieces0.len() + 1,
{
    let p = pieces0[idx];
    let f = split_first(p, cut);
    let sec = split_second(p, cut);
    let ss = shrunk_front(sec);
    let pieces1 = split_deleted(pieces0, idx, cut);
    lemma_span_split(read, add, p, cut);
    assert(piece_ok(read, add, ss));
    assert(pieces0 =~= pieces0.take(idx) + seq![p] + pieces0.skip(idx + 1));
    lemma_content_three(read, add, pieces0.take(idx), seq![p], pieces0.skip(idx + 1));
    lemma_content_three(read, add, pieces0.take(idx), seq![f, ss], pieces0.skip(idx + 1));
    assert(seq![f, ss] =~= seq![f] + seq![ss]);
    lemma_content_concat(read, add, seq![f], seq![ss]);
    lemma_content_singleton(read, add, p);
    lemma_content_singleton(read, add, f);
    lemma_content_singleton(read, add, ss);
    lemma_content_take_len(read, add, pieces0, idx);
    lemma_prefix_len_nonneg(pieces0, idx);
    let ca = content(read, add, pieces0.take(idx));
    let cb = content(read, add, pieces0.skip(idx + 1));
    let spf = span(read, add, f);
    let sps = span(read, add, sec);
    let oldc = content(read, add, pieces0);
    assert(span(read, add, ss) =~= sps.skip(1));
    assert(oldc == ca + (spf + sps) + cb);
    assert(content(read, add, pieces1) == ca + (spf + sps.skip(1)) + cb);
    assert(ca.len() + spf.len() == at);
    assert(oldc.take(at) =~= ca + spf);
    assert(oldc.skip(at + 1) =~= sps.skip(1) + cb);
    assert(ca + (spf + sps.skip(1)) + cb =~= (ca + spf) + (sps.skip(1) + cb));
    assert(ca + (spf + sps.skip(1)) + cb =~= oldc.remove(at));
    assert forall|k: int| 0 <= k < pieces1.len() implies piece_ok(
        read,
        add,
        #[trigger] pieces1[k],
    ) by {
        if k < idx {
            assert(pieces1[k] == pieces0[k]);
            assert(piece_ok(read, add, pieces0[k]));
        } else if k >= idx + 2 {
            assert(pieces1[k] == pieces0[k - 1]);
            assert(piece_ok(read, add, pieces0[k - 1]));
        }
    }
}

/// Replacing two joinable neighbors by the piece covering both spans leaves
/// the text unchanged.
pub(crate) proof fn lemma_join_neighbors<T>(
    read: Seq<T>,
    add: Seq<T>,
    pieces0: Seq<Piece>,
    k: int,
)
    requires
        pieces_ok(read, add, pieces0),
        1 <= k < pieces0.len(),
        can_join(pieces0[k - 1], pieces0[k]),
        pieces0[k - 1].length + pieces0[k].length <= usize::MAX,
    ensures
        pieces_ok(
            read,
            add,
            pieces0.update(k - 1, joined(pieces0[k - 1], pieces0[k])).remove(k),
        ),
        content(read, add, pieces0.update(k - 1, joined(pieces0[k - 1], pieces0[k])).remove(k))
            == content(read, add, pieces0),
{
    let p = pieces0[k - 1];
    let q = pieces0[k];
    let j = joined(p, q);
    assert(piece_ok(read, add, p));
    assert(piece_ok(read, add, q));
    lemma_span_join(read, add, p, q, j);
    let pieces1 = pieces0.update(k - 1, j).remove(k);
    assert(pieces0 =~= pieces0.take(k - 1) + (seq![p] + seq![q]) + pieces0.skip(k + 1));
    assert(pieces1 =~= pieces0.take(k - 1) + seq![j] + pieces0.skip(k + 1));
    lemma_content_three(read, add, pieces0.take(k - 1), seq![p] + seq![q], pieces0.skip(k + 1));
    lemma_content_three(read, add, pieces0.take(k - 1), seq![j], pieces0.skip(k + 1));
    lemma_content_concat(read, add, seq![p], seq![q]);
    lemma_content_singleton(read, add, p);
    lemma_content_singleton(read, add, q);
    lemma_content_singleton(read, add, j);
    assert forall|i: int| 0 <= i < pieces1.len() implies piece_ok(
        read,
        add,
        #[trigger] pieces1[i],
    ) by {
        if i < k - 1 {
            assert(pieces1[i] == pieces0[i]);
            assert(piece_ok(read, add, pieces0[i]));
        } else if i >= k {
            assert(pieces1[i] == pieces0[i + 1]);
            assert(piece_ok(read, add, pieces0[i + 1]));
        }
    }
}

/// Indexing the logical text inside piece `i` reads that piece's buffer.
pub(crate) proof fn lemma_content_index<T>(
    read: Seq<T>,
    add: Seq<T>,
    pieces: Seq<Piece>,
    i: int,
    k: int,
)
    requires
        pieces_ok(read, add, pieces),
        0 <= i < pieces.len(),
        0 <= k < pieces[i].length,
    ensures
        0 <= prefix_len(pieces, i) + k < content(read, add, pieces).len(),
        content(read, add, pieces)[prefix_len(pieces, i) + k] == buf_view(
            read,
            add,
            pieces[i].buffer,
        )[pieces[i].start + k],
{
    lemma_content_len(read, add, pieces);
    lemma_content_split(read, add, pieces, i);
    lemma_content_take_len(read, add, pieces, i);
    lemma_prefix_len_nonneg(pieces, i);
    lemma_prefix_len_mono(pieces, i + 1, pieces.len() as int);
    assert(pieces.skip(i).len() > 0);
    assert(pieces.skip(i)[0] == pieces[i]);
    assert(piece_ok(read, add, pieces[i]));
    let sp = span(read, add, pieces[i]);
    assert(content(read, add, pieces.skip(i)) == sp + content(
        read,
        add,
        pieces.skip(i).drop_first(),
    ));
    assert(sp[k] == buf_view(read, add, pieces[i].buffer)[pieces[i].start + k]);
}

} // verus!
