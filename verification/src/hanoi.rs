use vstd::prelude::*;

verus! {

/// One of the three pegs.
#[derive(Clone, Copy, Debug, Eq, PartialEq, Structural)]
pub enum Peg {
    A,
    B,
    C,
}

/// A move between two pegs: (source, destination).
pub type Move = (Peg, Peg);

/// The classic solution for moving `n` discs from `src` to `dst` with
/// `aux` to spare: move `n - 1` discs aside, carry the largest across,
/// then bring the `n - 1` discs after it.
pub open spec fn hanoi_moves(n: nat, src: Peg, aux: Peg, dst: Peg) -> Seq<Move>
    decreases n,
{
    if n == 0 {
        Seq::empty()
    } else {
        hanoi_moves((n - 1) as nat, src, dst, aux) + seq![(src, dst)] + hanoi_moves(
            (n - 1) as nat,
            aux,
            src,
            dst,
        )
    }
}

/// Append the moves that carry `n` discs from `src` to `dst`.
fn solve(n: u32, src: Peg, aux: Peg, dst: Peg, moves: &mut Vec<Move>)
    ensures
        final(moves)@ == old(moves)@ + hanoi_moves(n as nat, src, aux, dst),
    decreases n,
{
    if n == 0 {
        proof {
            assert(moves@ + hanoi_moves(0, src, aux, dst) =~= moves@);
        }
    } else {
        solve(n - 1, src, dst, aux, moves);
        moves.push((src, dst));
        solve(n - 1, aux, src, dst, moves);
        proof {
            assert(moves@ =~= old(moves)@ + hanoi_moves(n as nat, src, aux, dst));
        }
    }
}

/// Solves for the sequence of moves required to move all discs from
/// `src` to `dst`.
pub fn hanoi(num_discs: u32, src: Peg, aux: Peg, dst: Peg) -> (moves: Vec<Move>)
    requires
        num_discs < 32,
    ensures
        moves@ == hanoi_moves(num_discs as nat, src, aux, dst),
{
    let mut moves: Vec<Move> = Vec::new();
    solve(num_discs, src, aux, dst, &mut moves);
    proof {
        assert(Seq::<Move>::empty() + hanoi_moves(num_discs as nat, src, aux, dst) =~= hanoi_moves(
            num_discs as nat,
            src,
            aux,
            dst,
        ));
    }
    moves
}

/// Carry out the one legal move between two piles of discs, each pile
/// top last: from a pile onto an empty pile, or else the smaller top
/// disc onto the pile with the larger. Returns the move made as
/// (source peg, destination peg).
pub fn make_a_move(
    src_discs: &mut Vec<u32>,
    src_peg: Peg,
    dst_discs: &mut Vec<u32>,
    dst_peg: Peg,
) -> (m: Move)
    requires
        old(src_discs)@.len() > 0 || old(dst_discs)@.len() > 0,
    ensures
        old(src_discs)@.len() == 0 ==> final(src_discs)@ == old(src_discs)@.push(old(dst_discs)@.last()) && final(dst_discs)@ == old(dst_discs)@.drop_last() && m == (dst_peg, src_peg),
        old(src_discs)@.len() > 0 && old(dst_discs)@.len() == 0 ==> final(dst_discs)@ == old(dst_discs)@.push(old(src_discs)@.last()) && final(src_discs)@ == old(src_discs)@.drop_last() && m == (src_peg, dst_peg),
        old(src_discs)@.len() > 0 && old(dst_discs)@.len() > 0 && old(src_discs)@.last() > old(dst_discs)@.last() ==> final(src_discs)@ == old(src_discs)@.push(old(dst_discs)@.last()) && final(dst_discs)@ == old(dst_discs)@.drop_last() && m == (dst_peg, src_peg),
        old(src_discs)@.len() > 0 && old(dst_discs)@.len() > 0 && old(src_discs)@.last() <= old(dst_discs)@.last() ==> final(dst_discs)@ == old(dst_discs)@.push(old(src_discs)@.last()) && final(src_discs)@ == old(src_discs)@.drop_last() && m == (src_peg, dst_peg),
{
    let m1: Move = if src_discs.len() == 0 {
        let d = dst_discs.pop().unwrap();
        src_discs.push(d);
        (dst_peg, src_peg)
    } else if dst_discs.len() == 0 {
        let d = src_discs.pop().unwrap();
        dst_discs.push(d);
        (src_peg, dst_peg)
    } else if src_discs[src_discs.len() - 1] > dst_discs[dst_discs.len() - 1] {
        let d = dst_discs.pop().unwrap();
        src_discs.push(d);
        (dst_peg, src_peg)
    } else {
        let d = src_discs.pop().unwrap();
        dst_discs.push(d);
        (src_peg, dst_peg)
    };
    m1
}

} // verus!
