//! What the two searches have in common: the tables they read, the moves
//! they may make, the order in which they try them, and what it means for a
//! sequence of moves to be found.

use crate::pieces::{Face, Move};
use vstd::prelude::*;

verus! {

/// The two stages of the solver. `G0` stands for the whole cube group, in
/// which every face makes quarter turns; `G1` for the subgroup in which F, B,
/// R and L make half turns only.
#[derive(Clone, Copy, Debug, PartialEq, Eq, Structural)]
pub enum Group {
    G0,
    G1,
}

/// The tables of one coordinate: for each value and each face the value after
/// one step of that face, and for each value a lower bound on the number of
/// moves that lead from it to 0.
pub struct Table {
    pub moves: Seq<[usize; 6]>,
    pub depths: Seq<usize>,
}

impl Table {
    /// Both tables cover the same values, and no step leaves them.
    pub open spec fn wf(self) -> bool {
        &&& self.depths.len() == self.moves.len()
        &&& forall|c: int, f: int|
            0 <= c < self.moves.len() && 0 <= f < 6 ==> #[trigger] self.moves[c][f]
                < self.moves.len()
    }

    /// `c` is a value of the coordinate.
    pub open spec fn holds(self, c: int) -> bool {
        0 <= c < self.moves.len()
    }

    /// The value after one step of `face`.
    pub open spec fn step(self, c: int, face: Face) -> int {
        self.moves[c][face.spec_index()] as int
    }
}

/// The tables of the three coordinates of one stage.
pub struct TableSet {
    pub first: Table,
    pub second: Table,
    pub third: Table,
}

/// The values of the three coordinates of one stage.
pub struct Triple {
    pub first: int,
    pub second: int,
    pub third: int,
}

impl Triple {
    /// All three coordinates are 0.
    pub open spec fn is_zero(self) -> bool {
        self.first == 0 && self.second == 0 && self.third == 0
    }
}

/// The larger of two numbers.
pub open spec fn larger(a: int, b: int) -> int {
    if a >= b {
        a
    } else {
        b
    }
}

impl TableSet {
    /// Each of the three coordinates has well-formed tables.
    pub open spec fn wf(self) -> bool {
        self.first.wf() && self.second.wf() && self.third.wf()
    }

    /// Each coordinate of `x` is a value of its table.
    pub open spec fn holds(self, x: Triple) -> bool {
        self.first.holds(x.first) && self.second.holds(x.second) && self.third.holds(x.third)
    }

    /// The triple after one step of `face`.
    pub open spec fn step(self, x: Triple, face: Face) -> Triple {
        Triple {
            first: self.first.step(x.first, face),
            second: self.second.step(x.second, face),
            third: self.third.step(x.third, face),
        }
    }

    /// The triple after `n` steps of `face`.
    pub open spec fn steps(self, x: Triple, face: Face, n: nat) -> Triple
        decreases n,
    {
        if n == 0 {
            x
        } else {
            self.step(self.steps(x, face, (n - 1) as nat), face)
        }
    }

    /// The largest of the three lower bounds that the tables give for `x`.
    pub open spec fn bound(self, x: Triple) -> int {
        larger(
            self.first.depths[x.first] as int,
            larger(self.second.depths[x.second] as int, self.third.depths[x.third] as int),
        )
    }
}

/// A step from values that the tables hold leads to values that they hold.
pub proof fn lemma_step_holds(ts: TableSet, x: Triple, face: Face)
    requires
        ts.wf(),
        ts.holds(x),
    ensures
        ts.holds(ts.step(x, face)),
{
    let f = face.spec_index();
    assert(ts.first.moves[x.first][f] < ts.first.moves.len());
    assert(ts.second.moves[x.second][f] < ts.second.moves.len());
    assert(ts.third.moves[x.third][f] < ts.third.moves.len());
}

/// The place of a face in the order in which the searches try the faces:
/// U, D, F, B, R, L.
pub open spec fn face_order(face: Face) -> int {
    match face {
        Face::U => 0,
        Face::D => 1,
        Face::F => 2,
        Face::B => 3,
        Face::R => 4,
        Face::L => 5,
    }
}

/// The place of a move in the order in which the searches try the moves: by
/// face, and for one face by the number of quarter turns.
pub open spec fn move_order(m: Move) -> int {
    face_order(m.0) * 3 + m.1 - 1
}

/// A face is skipped after a move of the same face, and after a move of the
/// opposite face that itself followed a move of this face.
pub open spec fn skips(done: Seq<Move>, face: Face) -> bool {
    let n = done.len() as int;
    ||| n > 0 && done[n - 1].0 == face
    ||| n > 1 && done[n - 2].0 == face && done[n - 2].0.spec_is_opposite(done[n - 1].0)
}

/// A move that the stage `g` may make: one, two or three quarter turns, and
/// in `G1` only two of them for a face other than U and D.
pub open spec fn allowed(g: Group, m: Move) -> bool {
    &&& 1 <= m.1 <= 3
    &&& g == Group::G1 && m.0 != Face::U && m.0 != Face::D ==> m.1 == 2
}

/// The move that one step of `face` stands for in the tables of `g`: a
/// quarter turn, but in `G1` a half turn for the faces other than U and D.
pub open spec fn step_move(g: Group, face: Face) -> Move {
    if g == Group::G1 && face != Face::U && face != Face::D {
        Move(face, 2)
    } else {
        Move(face, 1)
    }
}

/// The number of table steps that the move `m` takes. The tables of `G0`
/// step by quarter turns; those of `G1` by quarter turns for U and D and by
/// half turns for the other faces.
pub open spec fn table_steps(g: Group, m: Move) -> nat {
    if g == Group::G1 && m.0 != Face::U && m.0 != Face::D {
        1
    } else {
        m.1 as nat
    }
}

/// Whether the first stage may end after the moves `done`: not with a turn
/// of U or D, not with a half turn, and not with a half turn followed by a
/// turn of the opposite face.
pub open spec fn closes_first_stage(done: Seq<Move>) -> bool {
    let n = done.len() as int;
    &&& n > 0 ==> done[n - 1].0 != Face::U && done[n - 1].0 != Face::D && done[n - 1].1 != 2
    &&& n > 1 ==> !(done[n - 2].1 == 2 && done[n - 2].0.spec_is_opposite(done[n - 1].0))
}

/// Whether the stage `g` may end after the moves `done`.
pub open spec fn closes(g: Group, done: Seq<Move>) -> bool {
    g == Group::G0 ==> closes_first_stage(done)
}

/// Whether the search of stage `g`, standing at `x` after the moves `done`,
/// follows the moves `seq` to the end and accepts them: at each move the
/// tables' lower bound does not exceed the number of moves that are left, the
/// move is allowed and its face not skipped, and after the last move all
/// three coordinates are 0 and the stage may end.
pub open spec fn accepts(ts: TableSet, g: Group, x: Triple, done: Seq<Move>, seq: Seq<Move>) -> bool
    decreases seq.len(),
{
    if seq.len() == 0 {
        closes(g, done) && x.is_zero()
    } else {
        let m = seq[0];
        &&& ts.bound(x) <= seq.len()
        &&& allowed(g, m)
        &&& !skips(done, m.0)
        &&& accepts(
            ts,
            g,
            ts.steps(x, m.0, table_steps(g, m)),
            done.push(m),
            seq.drop_first(),
        )
    }
}

/// `a` comes no later than `b` in the order of the search: at the first move
/// in which they differ, `a` has the move that is tried first.
pub open spec fn precedes(a: Seq<Move>, b: Seq<Move>) -> bool
    decreases a.len(),
{
    if a.len() == 0 || b.len() == 0 {
        true
    } else if a[0] == b[0] {
        precedes(a.drop_first(), b.drop_first())
    } else {
        move_order(a[0]) < move_order(b[0])
    }
}

/// `seq` is what the search returns: the first, in the order of the search,
/// of the sequences of its length that the search accepts.
pub open spec fn found(ts: TableSet, g: Group, x: Triple, done: Seq<Move>, seq: Seq<Move>) -> bool {
    &&& accepts(ts, g, x, done, seq)
    &&& forall|other: Seq<Move>|
        other.len() == seq.len() && #[trigger] accepts(ts, g, x, done, other) ==> precedes(
            seq,
            other,
        )
}

/// The search finds nothing: it accepts no sequence of `depth` moves.
pub open spec fn nothing_found(ts: TableSet, g: Group, x: Triple, done: Seq<Move>, depth: nat) -> bool {
    forall|seq: Seq<Move>| seq.len() == depth ==> !#[trigger] accepts(ts, g, x, done, seq)
}

/// Among the sequences of `depth` moves that the search accepts, none begins
/// with a move that comes before `order` in the order of the search.
pub open spec fn none_before(
    ts: TableSet,
    g: Group,
    x: Triple,
    done: Seq<Move>,
    depth: nat,
    order: int,
) -> bool {
    forall|seq: Seq<Move>|
        seq.len() == depth && #[trigger] accepts(ts, g, x, done, seq) ==> move_order(seq[0])
            >= order
}

/// Where the search has nothing before the move `m` and nothing after it
/// either, it has nothing before the next move.
pub proof fn lemma_move_fails(
    ts: TableSet,
    g: Group,
    x: Triple,
    done: Seq<Move>,
    depth: nat,
    m: Move,
)
    requires
        depth > 0,
        1 <= m.1 <= 3,
        none_before(ts, g, x, done, depth, move_order(m)),
        !allowed(g, m) || skips(done, m.0) || nothing_found(
            ts,
            g,
            ts.steps(x, m.0, table_steps(g, m)),
            done.push(m),
            (depth - 1) as nat,
        ),
    ensures
        none_before(ts, g, x, done, depth, move_order(m) + 1),
{
    assert forall|seq: Seq<Move>|
        seq.len() == depth && #[trigger] accepts(ts, g, x, done, seq) implies move_order(seq[0])
        >= move_order(m) + 1 by {
        if move_order(seq[0]) == move_order(m) {
            lemma_move_order_one_to_one(seq[0], m);
            assert(seq[0] == m);
            assert(accepts(
                ts,
                g,
                ts.steps(x, m.0, table_steps(g, m)),
                done.push(m),
                seq.drop_first(),
            ));
        }
    }
}

/// Two moves of one to three quarter turns with the same place in the order
/// are the same move.
pub proof fn lemma_move_order_one_to_one(a: Move, b: Move)
    requires
        1 <= a.1 <= 3,
        1 <= b.1 <= 3,
        move_order(a) == move_order(b),
    ensures
        a == b,
{
}

/// Where the search has nothing before the move `m`, and `tail` is what it
/// finds after `m`, it finds `m` followed by `tail`.
pub proof fn lemma_move_succeeds(
    ts: TableSet,
    g: Group,
    x: Triple,
    done: Seq<Move>,
    m: Move,
    tail: Seq<Move>,
)
    requires
        ts.bound(x) <= tail.len() + 1,
        allowed(g, m),
        !skips(done, m.0),
        none_before(ts, g, x, done, tail.len() + 1, move_order(m)),
        found(ts, g, ts.steps(x, m.0, table_steps(g, m)), done.push(m), tail),
    ensures
        found(ts, g, x, done, seq![m] + tail),
{
    let seq = seq![m] + tail;
    assert(seq[0] == m);
    assert(seq.drop_first() =~= tail);
    assert(accepts(ts, g, x, done, seq));
    assert forall|other: Seq<Move>|
        other.len() == seq.len() && #[trigger] accepts(ts, g, x, done, other) implies precedes(
        seq,
        other,
    ) by {
        assert(move_order(other[0]) >= move_order(m));
        if other[0] == m {
            assert(accepts(
                ts,
                g,
                ts.steps(x, m.0, table_steps(g, m)),
                done.push(m),
                other.drop_first(),
            ));
            assert(precedes(tail, other.drop_first()));
        } else {
            if move_order(other[0]) == move_order(m) {
                lemma_move_order_one_to_one(other[0], m);
            }
        }
    }
}

/// The same for moves that stand in one vector: where `whole` begins with
/// the moves `done` and the move `m`, and goes on with what the search finds
/// after `m`, it goes on after `done` with what the search finds there.
pub proof fn lemma_move_appended(
    ts: TableSet,
    g: Group,
    x: Triple,
    done: Seq<Move>,
    m: Move,
    whole: Seq<Move>,
)
    requires
        whole.len() > done.len(),
        whole.take(done.len() as int + 1) == done.push(m),
        ts.bound(x) <= whole.len() - done.len(),
        allowed(g, m),
        !skips(done, m.0),
        none_before(ts, g, x, done, (whole.len() - done.len()) as nat, move_order(m)),
        found(
            ts,
            g,
            ts.steps(x, m.0, table_steps(g, m)),
            done.push(m),
            whole.skip(done.len() as int + 1),
        ),
    ensures
        whole.take(done.len() as int) == done,
        found(ts, g, x, done, whole.skip(done.len() as int)),
{
    let n = done.len() as int;
    let head = whole.take(n + 1);
    let tail = whole.skip(n + 1);
    let rest = whole.skip(n);
    assert forall|k: int| 0 <= k <= n implies whole[k] == done.push(m)[k] by {
        assert(whole[k] == head[k]);
    }
    assert(rest[0] == m);
    assert(rest =~= seq![m] + tail);
    assert(whole.take(n) =~= done);
    lemma_move_succeeds(ts, g, x, done, m, tail);
}

/// Where no accepted sequence begins with any of the eighteen moves, the
/// search finds nothing.
pub proof fn lemma_all_moves_fail(ts: TableSet, g: Group, x: Triple, done: Seq<Move>, depth: nat)
    requires
        depth > 0,
        none_before(ts, g, x, done, depth, 18),
    ensures
        nothing_found(ts, g, x, done, depth),
{
    assert forall|seq: Seq<Move>| seq.len() == depth implies !#[trigger] accepts(
        ts,
        g,
        x,
        done,
        seq,
    ) by {
        if accepts(ts, g, x, done, seq) {
            assert(move_order(seq[0]) >= 18);
            assert(allowed(g, seq[0]));
        }
    }
}

/// Where the tables' lower bound exceeds the number of moves that are left,
/// the search finds nothing.
pub proof fn lemma_pruned(ts: TableSet, g: Group, x: Triple, done: Seq<Move>, depth: nat)
    requires
        depth > 0,
        depth < ts.bound(x),
    ensures
        nothing_found(ts, g, x, done, depth),
{
}

/// With no move left, the search finds the empty sequence or nothing.
pub proof fn lemma_no_move_left(ts: TableSet, g: Group, x: Triple, done: Seq<Move>)
    ensures
        closes(g, done) && x.is_zero() ==> found(ts, g, x, done, Seq::<Move>::empty()),
        !(closes(g, done) && x.is_zero()) ==> nothing_found(ts, g, x, done, 0),
{
    if !(closes(g, done) && x.is_zero()) {
        assert forall|seq: Seq<Move>| seq.len() == 0 implies !#[trigger] accepts(
            ts,
            g,
            x,
            done,
            seq,
        ) by {}
    }
}

} // verus!
