//! Pruning tables: for each value of a coordinate the least number of moves
//! that lead to it from the value 0, as far as that number stays below a
//! given depth.

use crate::pieces::Face;
use crate::transition_table::closed_table;
use vstd::prelude::*;

verus! {

/// The value after `n` steps of `face` from the value `c`.
pub open spec fn turned(table: Seq<[usize; 6]>, c: int, face: Face, n: nat) -> int
    decreases n,
{
    if n == 0 {
        c
    } else {
        table[turned(table, c, face, (n - 1) as nat)][face.spec_index()] as int
    }
}

/// One move leads from `b` to `x`: one, two or three steps of one face.
pub open spec fn one_move(table: Seq<[usize; 6]>, b: int, x: int) -> bool {
    exists|face: Face, n: nat| 1 <= n <= 3 && #[trigger] turned(table, b, face, n) == x
}

/// Exactly `d` moves lead from the value 0 to `x`.
pub open spec fn reach(table: Seq<[usize; 6]>, x: int, d: nat) -> bool
    decreases d,
{
    if d == 0 {
        x == 0
    } else {
        exists|b: int|
            0 <= b < table.len() && reach(table, b, (d - 1) as nat) && #[trigger] one_move(
                table,
                b,
                x,
            )
    }
}

/// Fewer than `d` moves do not lead from the value 0 to `x`.
pub open spec fn out_of_reach(table: Seq<[usize; 6]>, x: int, d: nat) -> bool {
    forall|e: nat| e < d ==> !#[trigger] reach(table, x, e)
}

/// The depth up to which a pruning table is filled: `max_depth`, but no more
/// than the number of values.
pub open spec fn horizon(table: Seq<[usize; 6]>, max_depth: nat) -> nat {
    if max_depth <= table.len() {
        max_depth
    } else {
        table.len()
    }
}

/// What a pruning table holds for the value `x`: the least number of moves
/// that lead to `x`, if that is below `limit`, and else the number of values
/// of the coordinate.
pub open spec fn prune_entry(table: Seq<[usize; 6]>, x: int, v: int, limit: nat) -> bool {
    ||| 0 <= v < limit && reach(table, x, v as nat) && out_of_reach(table, x, v as nat)
    ||| v == table.len() && out_of_reach(table, x, limit)
}

/// `depths` is the pruning table of the transition table `table`, filled up
/// to `max_depth`.
pub open spec fn is_prune_table(table: Seq<[usize; 6]>, depths: Seq<usize>, max_depth: nat) -> bool {
    &&& depths.len() == table.len()
    &&& forall|x: int|
        0 <= x < table.len() ==> prune_entry(
            table,
            x,
            #[trigger] depths[x] as int,
            horizon(table, max_depth),
        )
}

/// While the values at `depth` are being expanded, every entry is a least
/// number of moves up to `depth + 1`, or still empty for a value that
/// `depth` moves do not reach.
pub open spec fn filling(table: Seq<[usize; 6]>, depths: Seq<usize>, depth: nat) -> bool {
    &&& depths.len() == table.len()
    &&& forall|x: int|
        0 <= x < table.len() ==> prune_entry(table, x, #[trigger] depths[x] as int, depth + 1)
            || prune_entry(table, x, depths[x] as int, depth + 2)
}

/// Every value that one move reaches from `b` has an entry.
pub open spec fn expanded(table: Seq<[usize; 6]>, depths: Seq<usize>, b: int) -> bool {
    forall|face: Face, n: nat|
        1 <= n <= 3 ==> depths[#[trigger] turned(table, b, face, n)] != table.len()
}

/// Steps stay within a closed table.
pub proof fn lemma_turned_bound(table: Seq<[usize; 6]>, c: int, face: Face, n: nat)
    requires
        closed_table(table),
        0 <= c < table.len(),
    ensures
        0 <= turned(table, c, face, n) < table.len(),
    decreases n,
{
    if n > 0 {
        lemma_turned_bound(table, c, face, (n - 1) as nat);
        let b = turned(table, c, face, (n - 1) as nat);
        assert(table[b][face.spec_index()] < table.len());
    }
}

/// Hands a vector over as a boxed slice.
///
/// Calls `Vec::into_boxed_slice`, of which the contract says that the slice
/// holds what the vector held, in the same order.
#[verifier::external_body]
fn into_boxed(v: Vec<usize>) -> (b: Box<[usize]>)
    ensures
        b@ == v@,
{
    v.into_boxed_slice()
}

/// Gives every value that one move reaches from `coord`, and that has no
/// entry yet, the entry `depth + 1`.
fn init_prune_table_inner(
    coord: usize,
    prune_table: &mut Vec<usize>,
    trans_table: &[[usize; 6]],
    depth: usize,
)
    requires
        closed_table(trans_table@),
        coord < trans_table@.len(),
        depth + 1 < trans_table@.len(),
        old(prune_table)@[coord as int] == depth,
        filling(trans_table@, old(prune_table)@, depth as nat),
    ensures
        filling(trans_table@, final(prune_table)@, depth as nat),
        expanded(trans_table@, final(prune_table)@, coord as int),
        forall|x: int|
            0 <= x < trans_table@.len() && old(prune_table)@[x] != trans_table@.len()
                ==> #[trigger] final(prune_table)@[x] == old(prune_table)@[x],
{
    let ghost t = trans_table@;
    let ghost before = prune_table@;
    let n = trans_table.len();
    let faces = [Face::U, Face::D, Face::F, Face::B, Face::R, Face::L];
    let mut fi: usize = 0;
    proof {
        assert(prune_entry(t, coord as int, depth as int, depth as nat + 1) || prune_entry(
            t,
            coord as int,
            depth as int,
            depth as nat + 2,
        ));
        assert(reach(t, coord as int, depth as nat));
    }
    while fi < 6
        invariant
            fi <= 6,
            t == trans_table@,
            n == t.len(),
            closed_table(t),
            coord < n,
            depth + 1 < n,
            reach(t, coord as int, depth as nat),
            faces[0] == Face::U,
            faces[1] == Face::D,
            faces[2] == Face::F,
            faces[3] == Face::B,
            faces[4] == Face::R,
            faces[5] == Face::L,
            filling(t, prune_table@, depth as nat),
            forall|x: int|
                0 <= x < n && before[x] != n ==> #[trigger] prune_table@[x] == before[x],
            forall|m: int, k: nat|
                0 <= m < fi && 1 <= k <= 3 ==> prune_table@[#[trigger] turned(
                    t,
                    coord as int,
                    faces[m],
                    k,
                )] != n,
        decreases 6 - fi,
    {
        let f = faces[fi];
        let mut new_coord = coord;
        let mut k: usize = 0;
        while k < 3
            invariant
                k <= 3,
                fi < 6,
                f == faces[fi as int],
                t == trans_table@,
                n == t.len(),
                closed_table(t),
                coord < n,
                depth + 1 < n,
                reach(t, coord as int, depth as nat),
                new_coord == turned(t, coord as int, f, k as nat),
                new_coord < n,
                filling(t, prune_table@, depth as nat),
                forall|x: int|
                    0 <= x < n && before[x] != n ==> #[trigger] prune_table@[x] == before[x],
                forall|m: int, j: nat|
                    0 <= m < fi && 1 <= j <= 3 ==> prune_table@[#[trigger] turned(
                        t,
                        coord as int,
                        faces[m],
                        j,
                    )] != n,
                forall|j: nat|
                    1 <= j <= k ==> prune_table@[#[trigger] turned(t, coord as int, f, j)] != n,
            decreases 3 - k,
        {
            proof {
                lemma_turned_bound(t, coord as int, f, (k + 1) as nat);
            }
            new_coord = trans_table[new_coord][f.index()];
            k += 1;
            assert(new_coord == turned(t, coord as int, f, k as nat));
            if prune_table[new_coord] == n {
                let ghost earlier = prune_table@;
                prune_table.set(new_coord, depth + 1);
                proof {
                    let x = new_coord as int;
                    assert(one_move(t, coord as int, x));
                    lemma_one_more(t, coord as int, x, depth as nat);
                    assert(prune_entry(t, x, earlier[x] as int, depth as nat + 1)
                        || prune_entry(t, x, earlier[x] as int, depth as nat + 2));
                    assert(out_of_reach(t, x, depth as nat + 1));
                    assert(prune_entry(t, x, depth + 1, depth as nat + 2));
                    assert forall|m: int, j: nat| 0 <= m < fi && 1 <= j <= 3 implies prune_table@[#[trigger] turned(
                        t,
                        coord as int,
                        faces[m],
                        j,
                    )] != n by {
                        lemma_turned_bound(t, coord as int, faces[m], j);
                    }
                    assert forall|j: nat| 1 <= j <= k implies prune_table@[#[trigger] turned(
                        t,
                        coord as int,
                        f,
                        j,
                    )] != n by {
                        lemma_turned_bound(t, coord as int, f, j);
                    }
                    assert forall|y: int| 0 <= y < t.len() implies prune_entry(
                        t,
                        y,
                        #[trigger] prune_table@[y] as int,
                        depth as nat + 1,
                    ) || prune_entry(t, y, prune_table@[y] as int, depth as nat + 2) by {
                        if y != x {
                            assert(prune_table@[y] == earlier[y]);
                            assert(prune_entry(t, y, earlier[y] as int, depth as nat + 1)
                                || prune_entry(t, y, earlier[y] as int, depth as nat + 2));
                        }
                    }
                }
            }
        }
        fi += 1;
    }
    proof {
        assert forall|face: Face, j: nat| 1 <= j <= 3 implies prune_table@[#[trigger] turned(
            t,
            coord as int,
            face,
            j,
        )] != n by {
            let m = match face {
                Face::U => 0int,
                Face::D => 1,
                Face::F => 2,
                Face::B => 3,
                Face::R => 4,
                Face::L => 5,
            };
            assert(faces[m] == face);
            assert(prune_table@[turned(t, coord as int, faces[m], j)] != n);
        }
    }
}

/// Initialise a pruning table from a transition table. The pruning table
/// stores the depth of each coordinate.
fn init_prune_table(trans_table: &[[usize; 6]], max_depth: usize, table_size: usize) -> (table:
    Box<[usize]>)
    requires
        table_size == trans_table@.len(),
        table_size > 0,
        closed_table(trans_table@),
    ensures
        is_prune_table(trans_table@, table@, max_depth as nat),
{
    let ghost t = trans_table@;
    let n = table_size;
    let limit = if max_depth <= n {
        max_depth
    } else {
        n
    };
    let mut table: Vec<usize> = Vec::new();
    let mut i: usize = 0;
    while i < n
        invariant
            i <= n,
            table@.len() == i,
            forall|x: int| 0 <= x < i ==> table@[x] == n,
        decreases n - i,
    {
        table.push(n);
        i += 1;
    }
    if limit == 0 {
        return into_boxed(table);
    }
    table.set(0, 0);
    proof {
        assert forall|x: int| 0 <= x < t.len() implies prune_entry(
            t,
            x,
            #[trigger] table@[x] as int,
            1,
        ) by {
            if x == 0 {
                assert(reach(t, 0, 0));
            } else {
                assert forall|e: nat| e < 1 implies !#[trigger] reach(t, x, e) by {}
            }
        }
    }
    let mut depth: usize = 0;
    while depth + 1 < limit
        invariant
            t == trans_table@,
            n == t.len(),
            closed_table(t),
            0 < limit <= n,
            depth < limit,
            table@.len() == n,
            forall|x: int|
                0 <= x < n ==> prune_entry(t, x, #[trigger] table@[x] as int, depth as nat + 1),
        decreases limit - depth,
    {
        let mut coord: usize = 0;
        while coord < n
            invariant
                coord <= n,
                t == trans_table@,
                n == t.len(),
                closed_table(t),
                depth + 1 < limit <= n,
                table@.len() == n,
                filling(t, table@, depth as nat),
                forall|b: int|
                    0 <= b < coord && #[trigger] table@[b] == depth ==> expanded(t, table@, b),
            decreases n - coord,
        {
            if table[coord] == depth {
                let ghost earlier = table@;
                init_prune_table_inner(coord, &mut table, trans_table, depth);
                proof {
                    assert forall|b: int|
                        0 <= b < coord + 1 && #[trigger] table@[b] == depth implies expanded(
                        t,
                        table@,
                        b,
                    ) by {
                        if b < coord {
                            assert(earlier[b] != n);
                            assert(table@[b] == earlier[b]);
                            assert(expanded(t, earlier, b));
                            assert forall|face: Face, j: nat| 1 <= j <= 3 implies table@[#[trigger] turned(
                                t,
                                b,
                                face,
                                j,
                            )] != n by {
                                let y = turned(t, b, face, j);
                                lemma_turned_bound(t, b, face, j);
                                assert(earlier[y] != n);
                                assert(table@[y] == earlier[y]);
                            }
                        }
                    }
                }
            }
            coord += 1;
        }
        proof {
            assert forall|x: int| 0 <= x < n implies prune_entry(
                t,
                x,
                #[trigger] table@[x] as int,
                depth as nat + 2,
            ) by {
                lemma_level_done(t, table@, depth as nat, x);
            }
        }
        depth += 1;
    }
    into_boxed(table)
}

/// Once every value at `depth` has been expanded, every entry is final up
/// to `depth + 1`.
proof fn lemma_level_done(table: Seq<[usize; 6]>, depths: Seq<usize>, depth: nat, x: int)
    requires
        closed_table(table),
        depth + 1 < table.len(),
        filling(table, depths, depth),
        forall|b: int|
            0 <= b < table.len() && #[trigger] depths[b] == depth ==> expanded(table, depths, b),
        0 <= x < table.len(),
    ensures
        prune_entry(table, x, depths[x] as int, depth + 2),
{
    let v = depths[x] as int;
    assert(prune_entry(table, x, v, depth + 1) || prune_entry(table, x, v, depth + 2));
    if v == table.len() {
        assert(out_of_reach(table, x, depth + 1));
        assert forall|e: nat| e < depth + 2 implies !#[trigger] reach(table, x, e) by {
            if e == depth + 1 && reach(table, x, e) {
                // The entry is empty, though `depth + 1` moves reach `x`.
                let b = choose|b: int|
                    0 <= b < table.len() && reach(table, b, (e - 1) as nat)
                        && #[trigger] one_move(table, b, x);
                let w = depths[b] as int;
                assert(prune_entry(table, b, w, depth + 1) || prune_entry(
                    table,
                    b,
                    w,
                    depth + 2,
                ));
                if w < depth {
                    // `x` would be reached by `w + 1` moves.
                    lemma_one_more(table, b, x, w as nat);
                    assert(!reach(table, x, (w + 1) as nat));
                } else if w == depth {
                    let (face, n) = choose|face: Face, n: nat|
                        1 <= n <= 3 && #[trigger] turned(table, b, face, n) == x;
                    assert(depths[turned(table, b, face, n)] != table.len());
                } else {
                    assert(!reach(table, b, depth));
                }
            }
        }
    }
}

/// One move more leads one move further.
proof fn lemma_one_more(table: Seq<[usize; 6]>, b: int, x: int, d: nat)
    requires
        0 <= b < table.len(),
        reach(table, b, d),
        one_move(table, b, x),
    ensures
        reach(table, x, d + 1),
{
    assert(reach(table, b, ((d + 1) - 1) as nat));
}

/// Get the G0 CO prune table.
pub fn get_co_prune_table(co_trans: &[[usize; 6]]) -> (table: Box<[usize]>)
    requires
        co_trans@.len() > 0,
        closed_table(co_trans@),
    ensures
        is_prune_table(co_trans@, table@, 7),
        table@[0] == 0,
        forall|x: int|
            0 <= x < table@.len() ==> #[trigger] table@[x] < 7 || table@[x] == co_trans@.len(),
{
    let table = init_prune_table(co_trans, 7, co_trans.len());
    proof {
        lemma_prune_table_entries(co_trans@, table@, 7);
    }
    table
}

/// Get the G0 EO prune table.
pub fn get_eo_prune_table(eo_trans: &[[usize; 6]]) -> (table: Box<[usize]>)
    requires
        eo_trans@.len() > 0,
        closed_table(eo_trans@),
    ensures
        is_prune_table(eo_trans@, table@, 8),
        table@[0] == 0,
        forall|x: int|
            0 <= x < table@.len() ==> #[trigger] table@[x] < 8 || table@[x] == eo_trans@.len(),
{
    let table = init_prune_table(eo_trans, 8, eo_trans.len());
    proof {
        lemma_prune_table_entries(eo_trans@, table@, 8);
    }
    table
}

/// Get the G0 UD1 prune table.
pub fn get_ud1_prune_table(ud1_trans: &[[usize; 6]]) -> (table: Box<[usize]>)
    requires
        ud1_trans@.len() > 0,
        closed_table(ud1_trans@),
    ensures
        is_prune_table(ud1_trans@, table@, 6),
        table@[0] == 0,
        forall|x: int|
            0 <= x < table@.len() ==> #[trigger] table@[x] < 6 || table@[x] == ud1_trans@.len(),
{
    let table = init_prune_table(ud1_trans, 6, ud1_trans.len());
    proof {
        lemma_prune_table_entries(ud1_trans@, table@, 6);
    }
    table
}

/// Get the G1 CP prune table.
pub fn get_cp_prune_table(cp_trans: &[[usize; 6]]) -> (table: Box<[usize]>)
    requires
        cp_trans@.len() > 0,
        closed_table(cp_trans@),
    ensures
        is_prune_table(cp_trans@, table@, 14),
        table@[0] == 0,
        forall|x: int|
            0 <= x < table@.len() ==> #[trigger] table@[x] < 14 || table@[x] == cp_trans@.len(),
{
    let table = init_prune_table(cp_trans, 14, cp_trans.len());
    proof {
        lemma_prune_table_entries(cp_trans@, table@, 14);
    }
    table
}

/// Get the G1 EP prune table.
pub fn get_ep_prune_table(ep_trans: &[[usize; 6]]) -> (table: Box<[usize]>)
    requires
        ep_trans@.len() > 0,
        closed_table(ep_trans@),
    ensures
        is_prune_table(ep_trans@, table@, 9),
        table@[0] == 0,
        forall|x: int|
            0 <= x < table@.len() ==> #[trigger] table@[x] < 9 || table@[x] == ep_trans@.len(),
{
    let table = init_prune_table(ep_trans, 9, ep_trans.len());
    proof {
        lemma_prune_table_entries(ep_trans@, table@, 9);
    }
    table
}

/// Get the G1 UD2 prune table.
pub fn get_ud2_prune_table(ud2_trans: &[[usize; 6]]) -> (table: Box<[usize]>)
    requires
        ud2_trans@.len() > 0,
        closed_table(ud2_trans@),
    ensures
        is_prune_table(ud2_trans@, table@, 5),
        table@[0] == 0,
        forall|x: int|
            0 <= x < table@.len() ==> #[trigger] table@[x] < 5 || table@[x] == ud2_trans@.len(),
{
    let table = init_prune_table(ud2_trans, 5, ud2_trans.len());
    proof {
        lemma_prune_table_entries(ud2_trans@, table@, 5);
    }
    table
}

/// Exactly `d` moves lead from the value `a` to the value `b`.
pub open spec fn leads(table: Seq<[usize; 6]>, a: int, b: int, d: nat) -> bool
    decreases d,
{
    if d == 0 {
        a == b
    } else {
        exists|y: int|
            0 <= y < table.len() && leads(table, a, y, (d - 1) as nat) && #[trigger] one_move(
                table,
                y,
                b,
            )
    }
}

/// Every move of the table can be taken back by a move.
pub open spec fn reversible(table: Seq<[usize; 6]>) -> bool {
    forall|a: int, b: int|
        0 <= a < table.len() && #[trigger] one_move(table, a, b) ==> one_move(table, b, a)
}

/// The moves that lead to a value from the value 0 are moves that lead from
/// 0 to it.
pub proof fn lemma_reach_leads(table: Seq<[usize; 6]>, x: int, d: nat)
    ensures
        reach(table, x, d) == leads(table, 0, x, d),
    decreases d,
{
    if d > 0 {
        if reach(table, x, d) {
            let b = choose|b: int|
                0 <= b < table.len() && reach(table, b, (d - 1) as nat) && #[trigger] one_move(
                    table,
                    b,
                    x,
                );
            lemma_reach_leads(table, b, (d - 1) as nat);
        }
        if leads(table, 0, x, d) {
            let y = choose|y: int|
                0 <= y < table.len() && leads(table, 0, y, (d - 1) as nat) && #[trigger] one_move(
                    table,
                    y,
                    x,
                );
            lemma_reach_leads(table, y, (d - 1) as nat);
        }
    }
}

/// One move leads where one move leads, and stays within a closed table.
pub proof fn lemma_one_move_bound(table: Seq<[usize; 6]>, a: int, b: int)
    requires
        closed_table(table),
        0 <= a < table.len(),
        one_move(table, a, b),
    ensures
        0 <= b < table.len(),
{
    let (face, n) = choose|face: Face, n: nat|
        1 <= n <= 3 && #[trigger] turned(table, a, face, n) == b;
    lemma_turned_bound(table, a, face, n);
}

/// A move, and then `d` moves, are `d + 1` moves.
pub proof fn lemma_leads_after(table: Seq<[usize; 6]>, a: int, y: int, b: int, d: nat)
    requires
        closed_table(table),
        0 <= a < table.len(),
        one_move(table, a, y),
        leads(table, y, b, d),
    ensures
        leads(table, a, b, d + 1),
    decreases d,
{
    lemma_one_move_bound(table, a, y);
    if d == 0 {
        assert(leads(table, a, a, 0));
        assert(one_move(table, a, b));
        assert(leads(table, a, a, ((d + 1) - 1) as nat));
    } else {
        let z = choose|z: int|
            0 <= z < table.len() && leads(table, y, z, (d - 1) as nat) && #[trigger] one_move(
                table,
                z,
                b,
            );
        lemma_leads_after(table, a, y, z, (d - 1) as nat);
        assert(leads(table, a, z, ((d + 1) - 1) as nat));
    }
}

/// In a table whose moves can be taken back, the moves that lead from one
/// value to another lead back in as many moves.
pub proof fn lemma_leads_back(table: Seq<[usize; 6]>, a: int, b: int, d: nat)
    requires
        closed_table(table),
        reversible(table),
        0 <= a < table.len(),
        leads(table, a, b, d),
    ensures
        0 <= b < table.len(),
        leads(table, b, a, d),
    decreases d,
{
    if d > 0 {
        let y = choose|y: int|
            0 <= y < table.len() && leads(table, a, y, (d - 1) as nat) && #[trigger] one_move(
                table,
                y,
                b,
            );
        lemma_leads_back(table, a, y, (d - 1) as nat);
        lemma_one_move_bound(table, y, b);
        assert(one_move(table, b, y));
        lemma_leads_after(table, b, y, a, (d - 1) as nat);
    }
}

/// In a table whose moves can be taken back, the entry of a pruning table is
/// the least number of moves that lead from the value to 0, if that is below
/// the depth to which the table was filled; and where the entry is the
/// number of values, fewer moves than that depth do not lead to 0.
pub proof fn lemma_prune_entry_is_distance(
    table: Seq<[usize; 6]>,
    depths: Seq<usize>,
    max_depth: nat,
    x: int,
)
    requires
        table.len() > 0,
        closed_table(table),
        reversible(table),
        is_prune_table(table, depths, max_depth),
        0 <= x < table.len(),
    ensures
        depths[x] != table.len() ==> leads(table, x, 0, depths[x] as nat),
        forall|e: nat|
            e < depths[x] && e < horizon(table, max_depth) ==> !#[trigger] leads(table, x, 0, e),
{
    let v = depths[x] as int;
    let limit = horizon(table, max_depth);
    assert(prune_entry(table, x, v, limit));
    if v != table.len() {
        lemma_reach_leads(table, x, v as nat);
        lemma_leads_back(table, 0, x, v as nat);
    }
    assert forall|e: nat| e < depths[x] && e < limit implies !#[trigger] leads(
        table,
        x,
        0,
        e,
    ) by {
        if leads(table, x, 0, e) {
            lemma_leads_back(table, x, 0, e);
            lemma_reach_leads(table, x, e);
            assert(reach(table, x, e));
        }
    }
}

/// In a pruning table the value 0 has the entry 0, and every entry is below
/// the depth to which the table was filled or else the number of values.
pub proof fn lemma_prune_table_entries(table: Seq<[usize; 6]>, depths: Seq<usize>, max_depth: nat)
    requires
        table.len() > 0,
        max_depth > 0,
        is_prune_table(table, depths, max_depth),
    ensures
        depths[0] == 0,
        forall|x: int|
            0 <= x < depths.len() ==> #[trigger] depths[x] < max_depth || depths[x]
                == table.len(),
{
    let v = depths[0] as int;
    assert(prune_entry(table, 0, v, horizon(table, max_depth)));
    assert(reach(table, 0, 0));
    assert forall|x: int| 0 <= x < depths.len() implies #[trigger] depths[x] < max_depth
        || depths[x] == table.len() by {
        assert(prune_entry(table, x, depths[x] as int, horizon(table, max_depth)));
    }
}

} // verus!
