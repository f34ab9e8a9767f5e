//! Why the searches solve the cube: the tables follow the cube move by move,
//! so a sequence that the search accepts brings the cube itself to the state
//! in which all three coordinates are 0.

use crate::coord::{COCoord, Coord, EOCoord};
use crate::perm_coord::{CPCoord, EPCoord, UD2Coord};
use crate::pieces::{Face, Move};
use crate::pruning_table::{
    is_prune_table, leads, lemma_leads_after, lemma_prune_entry_is_distance, lemma_turned_bound,
    one_move, prune_entry, reversible, turned,
};
use crate::search::{
    accepts, allowed, closes, skips, step_move, table_steps, Group, Table, TableSet, Triple,
};
use crate::slice_coord::UD1Coord;
use crate::state::{
    lemma_apply_valid, lemma_four_quarter_turns, lemma_solved_valid, lemma_turned_once, CubeState,
};
use crate::transition_table::{closed_table, is_transition_table, lemma_transition_bound};
use vstd::prelude::*;

verus! {

/// The state after the moves `seq`, made one after the other.
pub open spec fn run(c: CubeState, seq: Seq<Move>) -> CubeState
    decreases seq.len(),
{
    if seq.len() == 0 {
        c
    } else {
        run(c.apply(seq[0]), seq.drop_first())
    }
}

/// The state after `n` steps of `face`, as the tables of `g` take them.
pub open spec fn stepped(c: CubeState, g: Group, face: Face, n: nat) -> CubeState
    decreases n,
{
    if n == 0 {
        c
    } else {
        stepped(c, g, face, (n - 1) as nat).apply(step_move(g, face))
    }
}

/// The coordinates of the first stage.
pub open spec fn first_stage_coords(c: CubeState) -> Triple {
    Triple {
        first: EOCoord::encode(c),
        second: COCoord::encode(c),
        third: UD1Coord::encode(c),
    }
}

/// The coordinates of the second stage.
pub open spec fn second_stage_coords(c: CubeState) -> Triple {
    Triple {
        first: EPCoord::encode(c),
        second: CPCoord::encode(c),
        third: UD2Coord::encode(c),
    }
}

/// The tables hold the transition tables of the first stage.
pub open spec fn first_stage_tables(ts: TableSet) -> bool {
    &&& is_transition_table::<EOCoord>(ts.first.moves)
    &&& is_transition_table::<COCoord>(ts.second.moves)
    &&& is_transition_table::<UD1Coord>(ts.third.moves)
}

/// The tables hold the transition tables of the second stage.
pub open spec fn second_stage_tables(ts: TableSet) -> bool {
    &&& is_transition_table::<EPCoord>(ts.first.moves)
    &&& is_transition_table::<CPCoord>(ts.second.moves)
    &&& is_transition_table::<UD2Coord>(ts.third.moves)
}

/// The transition table of a coordinate holds, at the coordinate of a cube,
/// the coordinate of the cube after the step.
pub proof fn lemma_table_follows<T: Coord>(table: Seq<[usize; 6]>, c: CubeState, face: Face)
    requires
        is_transition_table::<T>(table),
        c.valid(),
    ensures
        0 <= T::encode(c) < table.len(),
        table[T::encode(c)][face.spec_index()] == T::encode(
            c.apply(step_move(T::group_of(), face)),
        ),
        c.apply(step_move(T::group_of(), face)).valid(),
{
    T::lemma_encode_bound(c);
    T::lemma_step(c, face);
    lemma_apply_valid(c, step_move(T::group_of(), face));
}

/// The steps that a move takes in the tables are the move.
pub proof fn lemma_steps_are_the_move(c: CubeState, g: Group, m: Move)
    requires
        allowed(g, m),
    ensures
        stepped(c, g, m.0, table_steps(g, m)) == c.apply(m),
{
    if g == Group::G1 && m.0 != Face::U && m.0 != Face::D {
        assert(stepped(c, g, m.0, 1) == stepped(c, g, m.0, 0).apply(step_move(g, m.0)));
    } else {
        lemma_quarter_steps(c, g, m.0, m.1 as nat);
    }
}

/// Steps that are quarter turns add up to as many quarter turns.
proof fn lemma_quarter_steps(c: CubeState, g: Group, face: Face, n: nat)
    requires
        step_move(g, face) == Move(face, 1),
    ensures
        stepped(c, g, face, n) == c.turned(face, n),
    decreases n,
{
    if n > 0 {
        lemma_quarter_steps(c, g, face, (n - 1) as nat);
        lemma_turned_once(c.turned(face, (n - 1) as nat), face);
    }
}

/// The tables of the first stage follow the cube through any number of
/// steps of one face.
pub proof fn lemma_first_stage_steps(ts: TableSet, c: CubeState, face: Face, n: nat)
    requires
        first_stage_tables(ts),
        c.valid(),
    ensures
        stepped(c, Group::G0, face, n).valid(),
        ts.steps(first_stage_coords(c), face, n) == first_stage_coords(
            stepped(c, Group::G0, face, n),
        ),
    decreases n,
{
    if n > 0 {
        lemma_first_stage_steps(ts, c, face, (n - 1) as nat);
        let b = stepped(c, Group::G0, face, (n - 1) as nat);
        lemma_table_follows::<EOCoord>(ts.first.moves, b, face);
        lemma_table_follows::<COCoord>(ts.second.moves, b, face);
        lemma_table_follows::<UD1Coord>(ts.third.moves, b, face);
    }
}

/// The tables of the second stage follow the cube through any number of
/// steps of one face.
pub proof fn lemma_second_stage_steps(ts: TableSet, c: CubeState, face: Face, n: nat)
    requires
        second_stage_tables(ts),
        c.valid(),
    ensures
        stepped(c, Group::G1, face, n).valid(),
        ts.steps(second_stage_coords(c), face, n) == second_stage_coords(
            stepped(c, Group::G1, face, n),
        ),
    decreases n,
{
    if n > 0 {
        lemma_second_stage_steps(ts, c, face, (n - 1) as nat);
        let b = stepped(c, Group::G1, face, (n - 1) as nat);
        lemma_table_follows::<EPCoord>(ts.first.moves, b, face);
        lemma_table_follows::<CPCoord>(ts.second.moves, b, face);
        lemma_table_follows::<UD2Coord>(ts.third.moves, b, face);
    }
}

/// The moves that the first stage finds bring the cube into the subgroup:
/// after them all three coordinates of the first stage are 0.
pub proof fn lemma_first_stage_reaches(
    ts: TableSet,
    c: CubeState,
    done: Seq<Move>,
    seq: Seq<Move>,
)
    requires
        first_stage_tables(ts),
        c.valid(),
        accepts(ts, Group::G0, first_stage_coords(c), done, seq),
    ensures
        run(c, seq).valid(),
        first_stage_coords(run(c, seq)).is_zero(),
    decreases seq.len(),
{
    if seq.len() > 0 {
        let m = seq[0];
        lemma_first_stage_steps(ts, c, m.0, table_steps(Group::G0, m));
        lemma_steps_are_the_move(c, Group::G0, m);
        lemma_first_stage_reaches(ts, c.apply(m), done.push(m), seq.drop_first());
    }
}

/// The moves that the second stage finds solve the cube as far as the
/// second stage sees it: after them all three coordinates of the second
/// stage are 0.
pub proof fn lemma_second_stage_solves(
    ts: TableSet,
    c: CubeState,
    done: Seq<Move>,
    seq: Seq<Move>,
)
    requires
        second_stage_tables(ts),
        c.valid(),
        accepts(ts, Group::G1, second_stage_coords(c), done, seq),
    ensures
        run(c, seq).valid(),
        second_stage_coords(run(c, seq)).is_zero(),
    decreases seq.len(),
{
    if seq.len() > 0 {
        let m = seq[0];
        lemma_second_stage_steps(ts, c, m.0, table_steps(Group::G1, m));
        lemma_steps_are_the_move(c, Group::G1, m);
        lemma_second_stage_solves(ts, c.apply(m), done.push(m), seq.drop_first());
    }
}

/// The transition table of a coordinate follows the cube through any
/// number of steps of one face.
pub proof fn lemma_table_turns<T: Coord>(
    table: Seq<[usize; 6]>,
    c: CubeState,
    face: Face,
    n: nat,
)
    requires
        is_transition_table::<T>(table),
        c.valid(),
    ensures
        stepped(c, T::group_of(), face, n).valid(),
        turned(table, T::encode(c), face, n) == T::encode(stepped(c, T::group_of(), face, n)),
    decreases n,
{
    if n > 0 {
        lemma_table_turns::<T>(table, c, face, (n - 1) as nat);
        lemma_table_follows::<T>(table, stepped(c, T::group_of(), face, (n - 1) as nat), face);
    }
}

/// The number of steps of `face` after which the tables of `g` are back
/// where they began: four quarter turns, or two half turns.
pub open spec fn period(g: Group, face: Face) -> nat {
    if step_move(g, face).1 == 2 {
        2
    } else {
        4
    }
}

/// A full turn of a face, step by step, brings a solvable cube back to
/// itself.
pub proof fn lemma_full_turn(c: CubeState, g: Group, face: Face)
    requires
        c.valid(),
    ensures
        stepped(c, g, face, period(g, face)) == c,
{
    lemma_four_quarter_turns(c, face);
    if step_move(g, face).1 == 2 {
        let half = c.apply(Move(face, 2));
        assert(stepped(c, g, face, 1) == stepped(c, g, face, 0).apply(step_move(g, face)));
        assert(stepped(c, g, face, 2) == half.apply(Move(face, 2)));
        lemma_turned_once(c, face);
        lemma_turned_once(half, face);
    } else {
        lemma_quarter_steps(c, g, face, 4);
    }
}

/// Steps of one face add up.
pub proof fn lemma_turned_adds(table: Seq<[usize; 6]>, a: int, face: Face, m: nat, n: nat)
    ensures
        turned(table, turned(table, a, face, m), face, n) == turned(table, a, face, m + n),
    decreases n,
{
    if n > 0 {
        lemma_turned_adds(table, a, face, m, (n - 1) as nat);
    }
}

/// In the transition table of a coordinate, full turns of a face lead from
/// every value back to it.
pub proof fn lemma_table_full_turns<T: Coord>(
    table: Seq<[usize; 6]>,
    a: int,
    face: Face,
    k: nat,
)
    requires
        is_transition_table::<T>(table),
        0 <= a < T::size(),
    ensures
        turned(table, a, face, k * period(T::group_of(), face)) == a,
    decreases k,
{
    let p = period(T::group_of(), face);
    if k > 0 {
        lemma_table_full_turns::<T>(table, a, face, (k - 1) as nat);
        let solved = CubeState::solved();
        lemma_solved_valid();
        T::lemma_solved_fits();
        T::lemma_decode_encode(solved, a);
        let c = T::decode(solved, a);
        lemma_table_turns::<T>(table, c, face, p);
        lemma_full_turn(c, T::group_of(), face);
        lemma_turned_adds(table, a, face, ((k - 1) * p) as nat, p);
        assert((k - 1) * p + p == k * p) by (nonlinear_arith);
    } else {
        assert(0 * p == 0);
    }
}

/// The transition table of a coordinate is closed, and each of its moves
/// can be taken back by a move.
pub proof fn lemma_transition_table_reversible<T: Coord>(table: Seq<[usize; 6]>)
    requires
        is_transition_table::<T>(table),
    ensures
        closed_table(table),
        reversible(table),
{
    assert forall|c: int, f: int| 0 <= c < table.len() && 0 <= f < 6 implies #[trigger] table[c][f]
        < table.len() by {
        let face = if f == 0 {
            Face::U
        } else if f == 1 {
            Face::R
        } else if f == 2 {
            Face::F
        } else if f == 3 {
            Face::D
        } else if f == 4 {
            Face::B
        } else {
            Face::L
        };
        assert(face.spec_index() == f);
        lemma_transition_bound::<T>(c, face);
        assert(table[c][face.spec_index()] == crate::transition_table::transition::<T>(c, face));
    }
    assert forall|a: int, b: int| 0 <= a < table.len() && #[trigger] one_move(
        table,
        a,
        b,
    ) implies one_move(table, b, a) by {
        let (face, n) = choose|face: Face, n: nat|
            1 <= n <= 3 && #[trigger] turned(table, a, face, n) == b;
        let p = period(T::group_of(), face);
        if p == 2 {
            lemma_turned_adds(table, a, face, n, n);
            lemma_table_full_turns::<T>(table, a, face, n);
            assert(n * 2 == n + n);
            assert(turned(table, b, face, n) == a);
        } else {
            let back = (4 - n) as nat;
            lemma_turned_adds(table, a, face, n, back);
            lemma_table_full_turns::<T>(table, a, face, 1);
            assert(1 * 4 == 4);
            assert(turned(table, b, face, back) == a);
        }
    }
}

/// Whether the search would accept the moves `seq` if it never looked at
/// its pruning tables.
pub open spec fn accepts_unpruned(
    ts: TableSet,
    g: Group,
    x: Triple,
    done: Seq<Move>,
    seq: Seq<Move>,
) -> bool
    decreases seq.len(),
{
    if seq.len() == 0 {
        closes(g, done) && x.is_zero()
    } else {
        let m = seq[0];
        &&& allowed(g, m)
        &&& !skips(done, m.0)
        &&& accepts_unpruned(
            ts,
            g,
            ts.steps(x, m.0, table_steps(g, m)),
            done.push(m),
            seq.drop_first(),
        )
    }
}

/// The tables of one coordinate are sound: the moves of the transition
/// table can be taken back, and the pruning table was filled from it, to
/// some depth, and has an entry for every value.
pub open spec fn sound_table(t: Table) -> bool {
    &&& t.moves.len() > 0
    &&& closed_table(t.moves)
    &&& reversible(t.moves)
    &&& exists|max_depth: nat| is_prune_table(t.moves, t.depths, max_depth)
    &&& forall|x: int| 0 <= x < t.depths.len() ==> #[trigger] t.depths[x] != t.moves.len()
}

/// The steps of the three tables are the steps of each.
pub proof fn lemma_steps_apart(ts: TableSet, x: Triple, face: Face, n: nat)
    ensures
        ts.steps(x, face, n).first == turned(ts.first.moves, x.first, face, n),
        ts.steps(x, face, n).second == turned(ts.second.moves, x.second, face, n),
        ts.steps(x, face, n).third == turned(ts.third.moves, x.third, face, n),
    decreases n,
{
    if n > 0 {
        lemma_steps_apart(ts, x, face, (n - 1) as nat);
    }
}

/// No sound table asks for more moves than lead from the value to 0.
pub proof fn lemma_entry_is_lower_bound(t: Table, x: int, d: nat)
    requires
        sound_table(t),
        0 <= x < t.moves.len(),
        leads(t.moves, x, 0, d),
    ensures
        t.depths[x] <= d,
{
    let max_depth = choose|max_depth: nat| is_prune_table(t.moves, t.depths, max_depth);
    lemma_prune_entry_is_distance(t.moves, t.depths, max_depth, x);
    assert(prune_entry(
        t.moves,
        x,
        t.depths[x] as int,
        crate::pruning_table::horizon(t.moves, max_depth),
    ));
}

/// The moves that the search would accept without its pruning tables lead,
/// in each coordinate, from its value to 0.
pub proof fn lemma_unpruned_leads(
    ts: TableSet,
    g: Group,
    x: Triple,
    done: Seq<Move>,
    seq: Seq<Move>,
)
    requires
        closed_table(ts.first.moves),
        closed_table(ts.second.moves),
        closed_table(ts.third.moves),
        ts.holds(x),
        accepts_unpruned(ts, g, x, done, seq),
    ensures
        leads(ts.first.moves, x.first, 0, seq.len()),
        leads(ts.second.moves, x.second, 0, seq.len()),
        leads(ts.third.moves, x.third, 0, seq.len()),
    decreases seq.len(),
{
    if seq.len() > 0 {
        let m = seq[0];
        let n = table_steps(g, m);
        let y = ts.steps(x, m.0, n);
        lemma_steps_apart(ts, x, m.0, n);
        lemma_turned_bound(ts.first.moves, x.first, m.0, n);
        lemma_turned_bound(ts.second.moves, x.second, m.0, n);
        lemma_turned_bound(ts.third.moves, x.third, m.0, n);
        lemma_unpruned_leads(ts, g, y, done.push(m), seq.drop_first());
        assert(one_move(ts.first.moves, x.first, y.first));
        assert(one_move(ts.second.moves, x.second, y.second));
        assert(one_move(ts.third.moves, x.third, y.third));
        let rest = seq.drop_first().len();
        lemma_leads_after(ts.first.moves, x.first, y.first, 0, rest);
        lemma_leads_after(ts.second.moves, x.second, y.second, 0, rest);
        lemma_leads_after(ts.third.moves, x.third, y.third, 0, rest);
    }
}

/// Pruning loses nothing: with sound tables the search accepts every
/// sequence that it would accept without its pruning tables.
pub proof fn lemma_pruning_is_safe(
    ts: TableSet,
    g: Group,
    x: Triple,
    done: Seq<Move>,
    seq: Seq<Move>,
)
    requires
        sound_table(ts.first),
        sound_table(ts.second),
        sound_table(ts.third),
        ts.holds(x),
        accepts_unpruned(ts, g, x, done, seq),
    ensures
        accepts(ts, g, x, done, seq),
    decreases seq.len(),
{
    if seq.len() > 0 {
        let m = seq[0];
        let n = table_steps(g, m);
        let y = ts.steps(x, m.0, n);
        lemma_unpruned_leads(ts, g, x, done, seq);
        lemma_entry_is_lower_bound(ts.first, x.first, seq.len());
        lemma_entry_is_lower_bound(ts.second, x.second, seq.len());
        lemma_entry_is_lower_bound(ts.third, x.third, seq.len());
        lemma_steps_apart(ts, x, m.0, n);
        lemma_turned_bound(ts.first.moves, x.first, m.0, n);
        lemma_turned_bound(ts.second.moves, x.second, m.0, n);
        lemma_turned_bound(ts.third.moves, x.third, m.0, n);
        lemma_pruning_is_safe(ts, g, y, done.push(m), seq.drop_first());
    }
}

/// The moves `seq` may follow the moves `done` in the stage `g`: each is
/// allowed, none turns a face that is skipped, and the stage may end after
/// the last.
pub open spec fn admissible(g: Group, done: Seq<Move>, seq: Seq<Move>) -> bool
    decreases seq.len(),
{
    if seq.len() == 0 {
        closes(g, done)
    } else {
        &&& allowed(g, seq[0])
        &&& !skips(done, seq[0].0)
        &&& admissible(g, done.push(seq[0]), seq.drop_first())
    }
}

/// Without its pruning tables the first stage accepts just the admissible
/// sequences that bring the cube into the subgroup.
pub proof fn lemma_first_stage_unpruned(
    ts: TableSet,
    c: CubeState,
    done: Seq<Move>,
    seq: Seq<Move>,
)
    requires
        first_stage_tables(ts),
        c.valid(),
    ensures
        accepts_unpruned(ts, Group::G0, first_stage_coords(c), done, seq) == (admissible(
            Group::G0,
            done,
            seq,
        ) && first_stage_coords(run(c, seq)).is_zero()),
    decreases seq.len(),
{
    if seq.len() > 0 {
        let m = seq[0];
        if allowed(Group::G0, m) {
            lemma_first_stage_steps(ts, c, m.0, table_steps(Group::G0, m));
            lemma_steps_are_the_move(c, Group::G0, m);
            lemma_first_stage_unpruned(ts, c.apply(m), done.push(m), seq.drop_first());
        }
    }
}

/// Without its pruning tables the second stage accepts just the admissible
/// sequences after which all three of its coordinates are 0.
pub proof fn lemma_second_stage_unpruned(
    ts: TableSet,
    c: CubeState,
    done: Seq<Move>,
    seq: Seq<Move>,
)
    requires
        second_stage_tables(ts),
        c.valid(),
    ensures
        accepts_unpruned(ts, Group::G1, second_stage_coords(c), done, seq) == (admissible(
            Group::G1,
            done,
            seq,
        ) && second_stage_coords(run(c, seq)).is_zero()),
    decreases seq.len(),
{
    if seq.len() > 0 {
        let m = seq[0];
        if allowed(Group::G1, m) {
            lemma_second_stage_steps(ts, c, m.0, table_steps(Group::G1, m));
            lemma_steps_are_the_move(c, Group::G1, m);
            lemma_second_stage_unpruned(ts, c.apply(m), done.push(m), seq.drop_first());
        }
    }
}

/// The first stage misses nothing: with its own transition tables, and
/// pruning tables filled from them that have an entry for every value, it
/// accepts every admissible sequence that brings the cube into the subgroup.
pub proof fn lemma_first_stage_complete(
    ts: TableSet,
    c: CubeState,
    done: Seq<Move>,
    seq: Seq<Move>,
)
    requires
        first_stage_tables(ts),
        sound_table(ts.first),
        sound_table(ts.second),
        sound_table(ts.third),
        c.valid(),
        admissible(Group::G0, done, seq),
        first_stage_coords(run(c, seq)).is_zero(),
    ensures
        accepts(ts, Group::G0, first_stage_coords(c), done, seq),
{
    lemma_first_stage_unpruned(ts, c, done, seq);
    EOCoord::lemma_encode_bound(c);
    COCoord::lemma_encode_bound(c);
    UD1Coord::lemma_encode_bound(c);
    lemma_pruning_is_safe(ts, Group::G0, first_stage_coords(c), done, seq);
}

/// The second stage misses nothing: with its own transition tables, and
/// pruning tables filled from them that have an entry for every value, it
/// accepts every admissible sequence after which all three of its
/// coordinates are 0.
pub proof fn lemma_second_stage_complete(
    ts: TableSet,
    c: CubeState,
    done: Seq<Move>,
    seq: Seq<Move>,
)
    requires
        second_stage_tables(ts),
        sound_table(ts.first),
        sound_table(ts.second),
        sound_table(ts.third),
        c.valid(),
        admissible(Group::G1, done, seq),
        second_stage_coords(run(c, seq)).is_zero(),
    ensures
        accepts(ts, Group::G1, second_stage_coords(c), done, seq),
{
    lemma_second_stage_unpruned(ts, c, done, seq);
    EPCoord::lemma_encode_bound(c);
    CPCoord::lemma_encode_bound(c);
    UD2Coord::lemma_encode_bound(c);
    lemma_pruning_is_safe(ts, Group::G1, second_stage_coords(c), done, seq);
}

} // verus!
