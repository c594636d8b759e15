//! Towers of Hanoi: a recursive solver that records every move, and a
//! replayer that applies moves to three peg stacks, refusing illegal ones.

use vstd::prelude::*;
use vstd::arithmetic::power2::pow2;

verus! {

/// A move: source and destination peg indices (0, 1, 2).
pub type Move = (usize, usize);

/// The optimal move sequence taking `n` disks from `from` to `to` via `via`.
pub open spec fn hanoi_moves(n: nat, from: usize, to: usize, via: usize) -> Seq<Move>
    decreases n,
{
    if n == 0 {
        Seq::empty()
    } else {
        hanoi_moves((n - 1) as nat, from, via, to).push((from, to)) + hanoi_moves(
            (n - 1) as nat,
            via,
            to,
            from,
        )
    }
}

/// Disks `n, n - 1, ..., 1` from bottom to top.
pub open spec fn tower(n: nat) -> Seq<u32> {
    Seq::new(n, |i: int| (n - i) as u32)
}

/// The pegs after taking the top disk of `m.0` and placing it on `m.1`.
pub open spec fn apply_move(pegs: Seq<Seq<u32>>, m: Move) -> Seq<Seq<u32>> {
    let disk = pegs[m.0 as int].last();
    let lifted = pegs.update(m.0 as int, pegs[m.0 as int].drop_last());
    lifted.update(m.1 as int, lifted[m.1 as int].push(disk))
}

/// A move is legal when both pegs exist, the source holds a disk, and the
/// disk lands on an empty peg or on a larger disk.
pub open spec fn legal_move(pegs: Seq<Seq<u32>>, m: Move) -> bool {
    let lifted = pegs.update(m.0 as int, pegs[m.0 as int].drop_last());
    &&& m.0 < 3
    &&& m.1 < 3
    &&& pegs[m.0 as int].len() > 0
    &&& lifted[m.1 as int].len() > 0 ==> pegs[m.0 as int].last() < lifted[m.1 as int].last()
}

/// The pegs after applying `moves` in order.
pub open spec fn replay_spec(pegs: Seq<Seq<u32>>, moves: Seq<Move>) -> Seq<Seq<u32>>
    decreases moves.len(),
{
    if moves.len() == 0 {
        pegs
    } else {
        replay_spec(apply_move(pegs, moves[0]), moves.drop_first())
    }
}

/// Every move in `moves` is legal when applied in order from `pegs`.
pub open spec fn all_legal(pegs: Seq<Seq<u32>>, moves: Seq<Move>) -> bool
    decreases moves.len(),
{
    if moves.len() == 0 {
        true
    } else {
        legal_move(pegs, moves[0]) && all_legal(apply_move(pegs, moves[0]), moves.drop_first())
    }
}

/// The starting position: all `disks` on peg 0, largest at the bottom.
pub open spec fn initial_pegs(disks: nat) -> Seq<Seq<u32>> {
    seq![tower(disks), Seq::empty(), Seq::empty()]
}

/// Append the moves that take `n` disks from `from` to `to` via `via`.
pub fn solve(n: u32, from: usize, to: usize, via: usize, moves: &mut Vec<Move>)
    ensures
        final(moves)@ == old(moves)@ + hanoi_moves(n as nat, from, to, via),
    decreases n,
{
    if n == 0 {
        assert(old(moves)@ + hanoi_moves(0, from, to, via) =~= old(moves)@);
        return;
    }
    solve(n - 1, from, via, to, moves);
    moves.push((from, to));
    solve(n - 1, via, to, from, moves);
    assert(final(moves)@ =~= old(moves)@ + hanoi_moves(n as nat, from, to, via));
}

proof fn lemma_replay_append(pegs: Seq<Seq<u32>>, a: Seq<Move>, b: Seq<Move>)
    ensures
        replay_spec(pegs, a + b) == replay_spec(replay_spec(pegs, a), b),
        all_legal(pegs, a + b) == (all_legal(pegs, a) && all_legal(replay_spec(pegs, a), b)),
    decreases a.len(),
{
    if a.len() > 0 {
        assert((a + b).drop_first() =~= a.drop_first() + b);
        assert((a + b)[0] == a[0]);
        lemma_replay_append(apply_move(pegs, a[0]), a.drop_first(), b);
    } else {
        assert(a + b =~= b);
    }
}

proof fn lemma_replay_single(pegs: Seq<Seq<u32>>, m: Move)
    ensures
        replay_spec(pegs, seq![m]) == apply_move(pegs, m),
        all_legal(pegs, seq![m]) == legal_move(pegs, m),
{
    let s = seq![m];
    assert(s.drop_first() =~= Seq::<Move>::empty());
    reveal_with_fuel(replay_spec, 2);
    reveal_with_fuel(all_legal, 2);
}


/// Moving a tower of `n` disks that sits on top of `from`, over pegs whose
/// other disks are all larger than `n`, is legal throughout and ends with the
/// tower on top of `to`, every other disk where it was.
proof fn lemma_tower_move(
    n: nat,
    from: usize,
    to: usize,
    spare: usize,
    pegs: Seq<Seq<u32>>,
    rest: Seq<u32>,
)
    requires
        n <= u32::MAX,
        from < 3,
        to < 3,
        spare < 3,
        from != to,
        from != spare,
        to != spare,
        pegs.len() == 3,
        pegs[from as int] == rest + tower(n),
        forall|k: int| 0 <= k < rest.len() ==> rest[k] > n,
        forall|k: int| 0 <= k < pegs[to as int].len() ==> pegs[to as int][k] > n,
        forall|k: int| 0 <= k < pegs[spare as int].len() ==> pegs[spare as int][k] > n,
    ensures
        all_legal(pegs, hanoi_moves(n, from, to, spare)),
        replay_spec(pegs, hanoi_moves(n, from, to, spare)) == pegs.update(from as int, rest).update(
            to as int,
            pegs[to as int] + tower(n),
        ),
    decreases n,
{
    if n == 0 {
        assert(rest + tower(0) =~= rest);
        assert(pegs[to as int] + tower(0) =~= pegs[to as int]);
        assert(pegs.update(from as int, rest).update(to as int, pegs[to as int] + tower(n)) =~= pegs);
    } else {
        let m = (n - 1) as nat;
        let h1 = hanoi_moves(m, from, spare, to);
        let h2 = hanoi_moves(m, spare, to, from);
        let mv: Move = (from, to);
        assert(tower(n) =~= seq![n as u32] + tower(m));
        let rest1 = rest.push(n as u32);
        assert(rest + tower(n) =~= rest1 + tower(m));
        // Step 1: the upper n - 1 disks go from `from` to `spare`.
        lemma_tower_move(m, from, spare, to, pegs, rest1);
        let pegs1 = pegs.update(from as int, rest1).update(spare as int, pegs[spare as int] + tower(m));
        assert(replay_spec(pegs, h1) =~= pegs1);
        // Step 2: disk n goes from `from` to `to`.
        lemma_replay_single(pegs1, mv);
        assert(pegs1[from as int] == rest1);
        assert(pegs1[to as int] == pegs[to as int]);
        let lifted = pegs1.update(from as int, rest1.drop_last());
        assert(rest1.drop_last() =~= rest);
        assert(lifted[to as int] == pegs[to as int]);
        assert(legal_move(pegs1, mv)) by {
            if lifted[to as int].len() > 0 {
                assert(pegs[to as int][pegs[to as int].len() - 1] > n);
            }
        }
        let to1 = pegs[to as int].push(n as u32);
        let pegs2 = pegs1.update(from as int, rest).update(to as int, to1);
        assert(apply_move(pegs1, mv) =~= pegs2);
        // Step 3: the n - 1 disks go from `spare` onto disk n.
        assert(pegs2[spare as int] == pegs[spare as int] + tower(m));
        assert forall|k: int| 0 <= k < pegs2[to as int].len() implies pegs2[to as int][k] > m by {
            if k < pegs[to as int].len() {
                assert(pegs[to as int][k] > n);
            }
        }
        lemma_tower_move(m, spare, to, from, pegs2, pegs[spare as int]);
        let pegs3 = pegs2.update(spare as int, pegs[spare as int]).update(to as int, to1 + tower(m));
        assert(to1 + tower(m) =~= pegs[to as int] + tower(n));
        assert(pegs3 =~= pegs.update(from as int, rest).update(to as int, pegs[to as int] + tower(n)));
        // Chain the three stages.
        lemma_replay_append(pegs, h1, seq![mv]);
        lemma_replay_append(pegs, h1 + seq![mv], h2);
        assert(h1.push(mv) =~= h1 + seq![mv]);
        assert(hanoi_moves(n, from, to, spare) == h1.push(mv) + h2);
        assert(replay_spec(pegs, h1 + seq![mv]) == pegs2);
        assert(all_legal(pegs, h1 + seq![mv]));
    }
}

proof fn lemma_hanoi_len(n: nat, from: usize, to: usize, spare: usize)
    ensures
        hanoi_moves(n, from, to, spare).len() == pow2(n) - 1,
    decreases n,
{
    vstd::arithmetic::power2::lemma_pow2_pos(n);
    if n == 0 {
        vstd::arithmetic::power2::lemma_pow2(0);
        vstd::arithmetic::power::lemma_pow0(2);
    } else {
        lemma_hanoi_len((n - 1) as nat, from, spare, to);
        lemma_hanoi_len((n - 1) as nat, spare, to, from);
        vstd::arithmetic::power2::lemma_pow2_unfold(n);
    }
}

/// The recorded solution for `n` disks from peg 0 to peg 2 has `2^n - 1`
/// moves, every one of them legal, and leaves every disk stacked in order on
/// peg 2 with pegs 0 and 1 empty.
pub proof fn lemma_hanoi_solves(n: nat)
    requires
        n <= u32::MAX,
    ensures
        hanoi_moves(n, 0, 2, 1).len() == pow2(n) - 1,
        all_legal(initial_pegs(n), hanoi_moves(n, 0, 2, 1)),
        replay_spec(initial_pegs(n), hanoi_moves(n, 0, 2, 1)) == seq![
            Seq::<u32>::empty(),
            Seq::<u32>::empty(),
            tower(n),
        ],
{
    lemma_hanoi_len(n, 0, 2, 1);
    let pegs = initial_pegs(n);
    assert(pegs[0] =~= Seq::<u32>::empty() + tower(n));
    lemma_tower_move(n, 0, 2, 1, pegs, Seq::empty());
    assert(Seq::<u32>::empty() + tower(n) =~= tower(n));
    assert(pegs.update(0, Seq::<u32>::empty()).update(2, pegs[2] + tower(n)) =~= seq![
        Seq::<u32>::empty(),
        Seq::<u32>::empty(),
        tower(n),
    ]);
}


/// Three pegs, each holding its disks strictly decreasing from bottom to
/// top: no disk rests on a smaller one.
pub open spec fn stacked(pegs: Seq<Seq<u32>>) -> bool {
    &&& pegs.len() == 3
    &&& forall|p: int, i: int, j: int|
        0 <= p < 3 && 0 <= i < j < pegs[p].len() ==> #[trigger] pegs[p][i] > #[trigger] pegs[p][j]
}

/// The starting position is stacked.
pub proof fn lemma_initial_stacked(disks: nat)
    requires
        disks <= u32::MAX,
    ensures
        stacked(initial_pegs(disks)),
{
    let pegs = initial_pegs(disks);
    assert forall|p: int, i: int, j: int|
        0 <= p < 3 && 0 <= i < j < pegs[p].len() implies #[trigger] pegs[p][i] > #[trigger] pegs[p][j] by {
        assert(p == 0);
        assert(pegs[0][i] == (disks - i) as u32);
        assert(pegs[0][j] == (disks - j) as u32);
    }
}

/// On stacked pegs, a move is legal exactly when both pegs exist, the source
/// holds a disk, and the pegs are still stacked after it: the moving disk
/// must be smaller than the disk on top of the destination.
pub proof fn lemma_legal_move_iff_stays_stacked(pegs: Seq<Seq<u32>>, m: Move)
    requires
        stacked(pegs),
    ensures
        legal_move(pegs, m) <==> (m.0 < 3 && m.1 < 3 && pegs[m.0 as int].len() > 0 && stacked(
            apply_move(pegs, m),
        )),
{
    if m.0 < 3 && m.1 < 3 && pegs[m.0 as int].len() > 0 {
        let src = pegs[m.0 as int];
        let disk = src.last();
        let lifted = pegs.update(m.0 as int, src.drop_last());
        let dst = lifted[m.1 as int];
        let after = apply_move(pegs, m);
        assert(after[m.1 as int] == dst.push(disk));
        assert(forall|p: int| 0 <= p < 3 && p != m.1 ==> after[p] == lifted[p]);
        if legal_move(pegs, m) {
            assert forall|p: int, i: int, j: int|
                0 <= p < 3 && 0 <= i < j < after[p].len() implies #[trigger] after[p][i]
                > #[trigger] after[p][j] by {
                if p == m.1 {
                    if j == dst.len() {
                        if i < dst.len() - 1 {
                            assert(lifted[p][i] > lifted[p][dst.len() - 1]) by {
                                if p == m.0 {
                                    assert(src[i] > src[dst.len() - 1]);
                                } else {
                                    assert(pegs[p][i] > pegs[p][dst.len() - 1]);
                                }
                            }
                        }
                    } else {
                        if p == m.0 {
                            assert(src[i] > src[j]);
                        } else {
                            assert(pegs[p][i] > pegs[p][j]);
                        }
                    }
                } else if p == m.0 {
                    assert(src[i] > src[j]);
                } else {
                    assert(pegs[p][i] > pegs[p][j]);
                }
            }
        } else {
            assert(dst.len() > 0 && disk >= dst.last());
            assert(after[m.1 as int][dst.len() - 1] == dst.last());
            assert(after[m.1 as int][dst.len() as int] == disk);
            assert(!stacked(after));
        }
    }
}

proof fn lemma_replay_prefix(pegs: Seq<Seq<u32>>, moves: Seq<Move>, i: int)
    requires
        0 <= i < moves.len(),
    ensures
        replay_spec(pegs, moves.take(i + 1)) == apply_move(replay_spec(pegs, moves.take(i)), moves[i]),
        all_legal(pegs, moves.take(i + 1)) == (all_legal(pegs, moves.take(i)) && legal_move(
            replay_spec(pegs, moves.take(i)),
            moves[i],
        )),
{
    assert(moves.take(i + 1) =~= moves.take(i) + seq![moves[i]]);
    lemma_replay_append(pegs, moves.take(i), seq![moves[i]]);
    lemma_replay_single(replay_spec(pegs, moves.take(i)), moves[i]);
}

/// Replaying legal moves from stacked pegs keeps them stacked after every
/// move: no legal sequence ever puts a disk on a smaller one.
pub proof fn lemma_legal_moves_stay_stacked(pegs: Seq<Seq<u32>>, moves: Seq<Move>)
    requires
        stacked(pegs),
        all_legal(pegs, moves),
    ensures
        forall|i: int| 0 <= i <= moves.len() ==> stacked(#[trigger] replay_spec(pegs, moves.take(i))),
{
    assert forall|i: int| 0 <= i <= moves.len() implies stacked(#[trigger] replay_spec(pegs, moves.take(i))) by {
        lemma_stacked_upto(pegs, moves, i);
    }
}

proof fn lemma_stacked_upto(pegs: Seq<Seq<u32>>, moves: Seq<Move>, i: int)
    requires
        stacked(pegs),
        all_legal(pegs, moves),
        0 <= i <= moves.len(),
    ensures
        stacked(replay_spec(pegs, moves.take(i))),
        all_legal(pegs, moves.take(i)),
    decreases moves.len() - i,
{
    if i == moves.len() {
        assert(moves.take(i) =~= moves);
        lemma_stacked_from(pegs, moves);
    } else {
        lemma_stacked_upto(pegs, moves, i + 1);
        lemma_replay_prefix(pegs, moves, i);
        lemma_stacked_from(pegs, moves.take(i));
    }
}

proof fn lemma_stacked_from(pegs: Seq<Seq<u32>>, moves: Seq<Move>)
    requires
        stacked(pegs),
        all_legal(pegs, moves),
    ensures
        stacked(replay_spec(pegs, moves)),
    decreases moves.len(),
{
    if moves.len() > 0 {
        lemma_legal_move_iff_stays_stacked(pegs, moves[0]);
        lemma_stacked_from(apply_move(pegs, moves[0]), moves.drop_first());
    }
}

/// Move `m` names two existing pegs, lifts a disk from a non-empty one, and
/// leaves the pegs stacked.
pub open spec fn stacking_step(cur: Seq<Seq<u32>>, m: Move) -> bool {
    &&& m.0 < 3
    &&& m.1 < 3
    &&& cur[m.0 as int].len() > 0
    &&& stacked(apply_move(cur, m))
}

/// From stacked pegs, a sequence is legal exactly when every move in turn
/// names two existing pegs, lifts a disk from a non-empty one, and leaves the
/// pegs stacked.
pub proof fn lemma_all_legal_iff_stays_stacked(pegs: Seq<Seq<u32>>, moves: Seq<Move>)
    requires
        stacked(pegs),
    ensures
        all_legal(pegs, moves) <==> forall|i: int|
            0 <= i < moves.len() ==> stacking_step(#[trigger] replay_spec(pegs, moves.take(i)), moves[i]),
{
    let good = forall|i: int|
        0 <= i < moves.len() ==> stacking_step(#[trigger] replay_spec(pegs, moves.take(i)), moves[i]);
    if all_legal(pegs, moves) {
        lemma_legal_moves_stay_stacked(pegs, moves);
        assert forall|i: int| 0 <= i < moves.len() implies stacking_step(
            #[trigger] replay_spec(pegs, moves.take(i)),
            moves[i],
        ) by {
            lemma_stacked_upto(pegs, moves, i + 1);
            lemma_stacked_upto(pegs, moves, i);
            lemma_replay_prefix(pegs, moves, i);
            lemma_legal_move_iff_stays_stacked(replay_spec(pegs, moves.take(i)), moves[i]);
        }
    }
    if good {
        lemma_legal_if_stays_stacked(pegs, moves, moves.len() as int);
        assert(moves.take(moves.len() as int) =~= moves);
    }
}

/// What [`moves_legal`] decides, in terms of the disks alone: starting from
/// `disks` disks on peg 0, every move names two existing pegs, lifts a disk
/// from a non-empty one and never leaves a disk on a smaller one.
pub proof fn lemma_moves_legal_iff_stays_stacked(disks: nat, moves: Seq<Move>)
    requires
        disks <= u32::MAX,
    ensures
        all_legal(initial_pegs(disks), moves) <==> forall|i: int|
            0 <= i < moves.len() ==> stacking_step(
                #[trigger] replay_spec(initial_pegs(disks), moves.take(i)),
                moves[i],
            ),
{
    lemma_initial_stacked(disks);
    lemma_all_legal_iff_stays_stacked(initial_pegs(disks), moves);
}

proof fn lemma_legal_if_stays_stacked(pegs: Seq<Seq<u32>>, moves: Seq<Move>, n: int)
    requires
        stacked(pegs),
        0 <= n <= moves.len(),
        forall|i: int|
            0 <= i < moves.len() ==> stacking_step(#[trigger] replay_spec(pegs, moves.take(i)), moves[i]),
    ensures
        all_legal(pegs, moves.take(n)),
        stacked(replay_spec(pegs, moves.take(n))),
    decreases n,
{
    if n == 0 {
        assert(moves.take(0) =~= Seq::<Move>::empty());
    } else {
        lemma_legal_if_stays_stacked(pegs, moves, n - 1);
        lemma_replay_prefix(pegs, moves, n - 1);
        let cur = replay_spec(pegs, moves.take(n - 1));
        lemma_legal_move_iff_stays_stacked(cur, moves[n - 1]);
    }
}

/// The three peg stacks as sequences, bottom first.
pub open spec fn pegs_view(pegs: [Vec<u32>; 3]) -> Seq<Seq<u32>> {
    seq![pegs[0]@, pegs[1]@, pegs[2]@]
}

/// Replay `moves` on three peg stacks that start with `disks` disks on peg 0
/// and return the final peg configuration. Every move must be legal.
pub fn replay(disks: u32, moves: &[Move]) -> (pegs: [Vec<u32>; 3])
    requires
        all_legal(initial_pegs(disks as nat), moves@),
    ensures
        pegs_view(pegs) == replay_spec(initial_pegs(disks as nat), moves@),
{
    let mut first: Vec<u32> = Vec::new();
    let mut d = disks;
    while d > 0
        invariant
            d <= disks,
            first@ == tower(disks as nat).subrange(0, (disks - d) as int),
        decreases d,
    {
        first.push(d);
        d = d - 1;
        assert(first@ =~= tower(disks as nat).subrange(0, (disks - d) as int));
    }
    assert(first@ =~= tower(disks as nat));
    let mut pegs: [Vec<u32>; 3] = [first, Vec::new(), Vec::new()];
    let ghost start = initial_pegs(disks as nat);
    assert(pegs_view(pegs) =~= start);
    assert(moves@.take(0) =~= Seq::<Move>::empty());
    assert(moves@.skip(0) =~= moves@);
    assert(replay_spec(start, moves@.take(0)) == start);
    let mut i: usize = 0;
    while i < moves.len()
        invariant
            i <= moves@.len(),
            pegs_view(pegs) == replay_spec(start, moves@.take(i as int)),
            all_legal(replay_spec(start, moves@.take(i as int)), moves@.skip(i as int)),
            replay_spec(start, moves@) == replay_spec(
                replay_spec(start, moves@.take(i as int)),
                moves@.skip(i as int),
            ),
        decreases moves@.len() - i,
    {
        let (from, to) = moves[i];
        let ghost cur = pegs_view(pegs);
        let ghost rest = moves@.skip(i as int);
        assert(rest[0] == (from, to));
        assert(legal_move(cur, (from, to)));
        let disk = match pegs[from].pop() {
            Some(disk) => disk,
            None => {
                assert(false);
                0
            }
        };
        if pegs[to].len() > 0 {
            let top = pegs[to][pegs[to].len() - 1];
            assert(disk < top);
        }
        pegs[to].push(disk);
        proof {
            assert(pegs_view(pegs) =~= apply_move(cur, (from, to)));
            lemma_replay_append(start, moves@.take(i as int), seq![(from, to)]);
            lemma_replay_single(cur, (from, to));
            assert(moves@.take(i + 1) =~= moves@.take(i as int) + seq![(from, to)]);
            assert(rest.drop_first() =~= moves@.skip(i + 1));
        }
        i = i + 1;
    }
    assert(moves@.skip(i as int) =~= Seq::<Move>::empty());
    pegs
}


/// Are all of `moves` legal when replayed from `disks` disks on peg 0?
/// This is exactly the condition [`replay`] asks for.
pub fn moves_legal(disks: u32, moves: &[Move]) -> (r: bool)
    ensures
        r == all_legal(initial_pegs(disks as nat), moves@),
{
    let mut first: Vec<u32> = Vec::new();
    let mut d = disks;
    while d > 0
        invariant
            d <= disks,
            first@ == tower(disks as nat).subrange(0, (disks - d) as int),
        decreases d,
    {
        first.push(d);
        d = d - 1;
        assert(first@ =~= tower(disks as nat).subrange(0, (disks - d) as int));
    }
    assert(first@ =~= tower(disks as nat));
    let mut pegs: [Vec<u32>; 3] = [first, Vec::new(), Vec::new()];
    let ghost start = initial_pegs(disks as nat);
    assert(pegs_view(pegs) =~= start);
    assert(moves@.take(0) =~= Seq::<Move>::empty());
    assert(moves@.skip(0) =~= moves@);
    assert(replay_spec(start, moves@.take(0)) == start);
    assert(all_legal(start, moves@.take(0)));
    let mut i: usize = 0;
    while i < moves.len()
        invariant
            i <= moves@.len(),
            start == initial_pegs(disks as nat),
            pegs_view(pegs) == replay_spec(start, moves@.take(i as int)),
            all_legal(start, moves@) == all_legal(
                replay_spec(start, moves@.take(i as int)),
                moves@.skip(i as int),
            ),
            replay_spec(start, moves@) == replay_spec(
                replay_spec(start, moves@.take(i as int)),
                moves@.skip(i as int),
            ),
        decreases moves@.len() - i,
    {
        let (from, to) = moves[i];
        let ghost cur = pegs_view(pegs);
        let ghost rest = moves@.skip(i as int);
        assert(rest[0] == (from, to));
        if from >= 3 || to >= 3 {
            assert(!legal_move(cur, (from, to)));
            assert(!all_legal(cur, rest));
            return false;
        }
        let from_len = pegs[from].len();
        if from_len == 0 {
            assert(!legal_move(cur, (from, to)));
            assert(!all_legal(cur, rest));
            return false;
        }
        let disk = pegs[from][from_len - 1];
        let to_len = if from == to { from_len - 1 } else { pegs[to].len() };
        if to_len > 0 && disk >= pegs[to][to_len - 1] {
            assert(!legal_move(cur, (from, to)));
            assert(!all_legal(cur, rest));
            return false;
        }
        assert(legal_move(cur, (from, to)));
        let _ = pegs[from].pop();
        pegs[to].push(disk);
        proof {
            assert(pegs_view(pegs) =~= apply_move(cur, (from, to)));
            lemma_replay_append(start, moves@.take(i as int), seq![(from, to)]);
            lemma_replay_single(cur, (from, to));
            assert(moves@.take(i + 1) =~= moves@.take(i as int) + seq![(from, to)]);
            assert(rest.drop_first() =~= moves@.skip(i + 1));
        }
        i = i + 1;
    }
    assert(moves@.skip(i as int) =~= Seq::<Move>::empty());
    true
}

} // verus!
