//! The fields that a caller has selected to identify documents by, as one
//! text with commas between the names.

use vstd::prelude::*;

verus! {

/// The pieces put together again, with a comma between two.
pub open spec fn joined(pieces: Seq<Seq<u8>>) -> Seq<u8>
    decreases pieces.len(),
{
    if pieces.len() == 0 {
        Seq::empty()
    } else if pieces.len() == 1 {
        pieces[0]
    } else {
        joined(pieces.drop_last()).push(0x2cu8) + pieces.last()
    }
}

/// The byte strings that a list of byte vectors holds.
pub open spec fn piece_views(pieces: Seq<Vec<u8>>) -> Seq<Seq<u8>> {
    Seq::new(pieces.len(), |i: int| pieces[i]@)
}

/// No piece holds a comma.
pub open spec fn comma_free(pieces: Seq<Seq<u8>>) -> bool {
    forall|i: int, j: int|
        0 <= i < pieces.len() && 0 <= j < pieces[i].len() ==> pieces[i][j] != 0x2cu8
}

/// Cuts a text at its commas. The pieces are what stands between the commas,
/// so a text without a comma is one piece, and an empty text one empty piece.
pub fn split_commas(value: &[u8]) -> (pieces: Vec<Vec<u8>>)
    ensures
        pieces@.len() >= 1,
        joined(piece_views(pieces@)) == value@,
        comma_free(piece_views(pieces@)),
{
    let mut pieces: Vec<Vec<u8>> = Vec::new();
    let mut current: Vec<u8> = Vec::new();
    let mut i: usize = 0;
    proof {
        assert(piece_views(pieces@).push(current@) =~= seq![Seq::<u8>::empty()]);
        assert(joined(seq![Seq::<u8>::empty()]) =~= value@.take(0));
    }
    while i < value.len()
        invariant
            i <= value@.len(),
            joined(piece_views(pieces@).push(current@)) == value@.take(i as int),
            comma_free(piece_views(pieces@).push(current@)),
        decreases value@.len() - i,
    {
        let ghost done = piece_views(pieces@);
        let ghost open = current@;
        let ghost before = done.push(open);
        let b = value[i];
        proof {
            assert(value@.take(i as int + 1) =~= value@.take(i as int).push(b));
            assert(before.drop_last() =~= done);
        }
        if b == 0x2cu8 {
            pieces.push(current);
            current = Vec::new();
            proof {
                let after = piece_views(pieces@).push(current@);
                assert(piece_views(pieces@) =~= before);
                assert(after.drop_last() =~= before);
                assert(joined(after) =~= joined(before).push(0x2cu8));
                assert forall|p: int, q: int|
                    0 <= p < after.len() && 0 <= q < after[p].len() implies after[p][q]
                    != 0x2cu8 by {
                    assert(after[p] == before[p]);
                }
            }
        } else {
            current.push(b);
            proof {
                let after = piece_views(pieces@).push(current@);
                assert(after.drop_last() =~= done);
                assert(after.last() =~= open.push(b));
                assert(joined(after) =~= joined(before).push(b));
                assert forall|p: int, q: int|
                    0 <= p < after.len() && 0 <= q < after[p].len() implies after[p][q]
                    != 0x2cu8 by {
                    if p < done.len() {
                        assert(after[p] == before[p]);
                    } else if q < open.len() {
                        assert(after[p][q] == before[p][q]);
                    }
                }
            }
        }
        i = i + 1;
    }
    proof {
        assert(value@.take(value@.len() as int) =~= value@);
    }
    let ghost all = piece_views(pieces@).push(current@);
    pieces.push(current);
    proof {
        assert(piece_views(pieces@) =~= all);
    }
    pieces
}

} // verus!
