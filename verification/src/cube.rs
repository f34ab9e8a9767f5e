//! The executable cube: permutation and orientation arrays, move
//! application and the solvability check.

use crate::numbers::{bytes, total};
use crate::perm::{distinct, ints, num_inversions, odd};
use crate::pieces::{Corner, CubeStateErr, Edge, Face, Move};
use crate::state::{lemma_quarter_turn_valid, lemma_solved_valid, quarter, CubeState, Turn};
use vstd::prelude::*;

verus! {

/// The places, in the solved cube, of the corners in `cp`.
pub open spec fn corner_places(cp: [Corner; 8]) -> Seq<int> {
    Seq::new(8, |i: int| cp[i].spec_index())
}

/// The places, in the solved cube, of the edges in `ep`.
pub open spec fn edge_places(ep: [Edge; 12]) -> Seq<int> {
    Seq::new(12, |i: int| ep[i].spec_index())
}

/// The state that four arrays describe.
pub open spec fn state_of(cp: [Corner; 8], co: [u8; 8], ep: [Edge; 12], eo: [u8; 12]) -> CubeState {
    CubeState { cp: corner_places(cp), co: bytes(co@), ep: edge_places(ep), eo: bytes(eo@) }
}

/// The permutations and orientations representing a quarter turn.
struct MovePerm {
    cp: [usize; 8],
    co: [u8; 8],
    ep: [usize; 12],
    eo: [u8; 12],
}

impl MovePerm {
    /// The turn that the arrays describe.
    spec fn turn(&self) -> Turn {
        Turn { cp: ints(self.cp@), co: bytes(self.co@), ep: ints(self.ep@), eo: bytes(self.eo@) }
    }

    /// Every slot named is a slot, every twist below 3, every flip below 2.
    spec fn wf(&self) -> bool {
        &&& forall|i: int| 0 <= i < 8 ==> #[trigger] self.cp[i] < 8
        &&& forall|i: int| 0 <= i < 8 ==> #[trigger] self.co[i] <= 2
        &&& forall|i: int| 0 <= i < 12 ==> #[trigger] self.ep[i] < 12
        &&& forall|i: int| 0 <= i < 12 ==> #[trigger] self.eo[i] <= 1
    }
}

/// The quarter turn of `face`.
fn move_perm(face: Face) -> (mp: MovePerm)
    ensures
        mp.turn() == quarter(face),
        mp.wf(),
{
    let mp = match face {
        Face::U => MovePerm {
            cp: [3, 0, 1, 2, 4, 5, 6, 7],
            co: [0, 0, 0, 0, 0, 0, 0, 0],
            ep: [3, 0, 1, 2, 4, 5, 6, 7, 8, 9, 10, 11],
            eo: [0, 0, 0, 0, 0, 0, 0, 0, 0, 0, 0, 0],
        },
        Face::R => MovePerm {
            cp: [4, 1, 2, 0, 7, 5, 6, 3],
            co: [1, 0, 0, 2, 2, 0, 0, 1],
            ep: [8, 1, 2, 3, 11, 5, 6, 7, 4, 9, 10, 0],
            eo: [0, 0, 0, 0, 0, 0, 0, 0, 0, 0, 0, 0],
        },
        Face::F => MovePerm {
            cp: [1, 5, 2, 3, 0, 4, 6, 7],
            co: [2, 1, 0, 0, 1, 2, 0, 0],
            ep: [0, 9, 2, 3, 4, 8, 6, 7, 1, 5, 10, 11],
            eo: [0, 1, 0, 0, 0, 1, 0, 0, 1, 1, 0, 0],
        },
        Face::D => MovePerm {
            cp: [0, 1, 2, 3, 5, 6, 7, 4],
            co: [0, 0, 0, 0, 0, 0, 0, 0],
            ep: [0, 1, 2, 3, 5, 6, 7, 4, 8, 9, 10, 11],
            eo: [0, 0, 0, 0, 0, 0, 0, 0, 0, 0, 0, 0],
        },
        Face::B => MovePerm {
            cp: [0, 1, 3, 7, 4, 5, 2, 6],
            co: [0, 0, 2, 1, 0, 0, 1, 2],
            ep: [0, 1, 2, 11, 4, 5, 6, 10, 8, 9, 3, 7],
            eo: [0, 0, 0, 1, 0, 0, 0, 1, 0, 0, 1, 1],
        },
        Face::L => MovePerm {
            cp: [0, 2, 6, 3, 4, 1, 5, 7],
            co: [0, 2, 1, 0, 0, 1, 2, 0],
            ep: [0, 1, 10, 3, 4, 5, 9, 7, 8, 2, 6, 11],
            eo: [0, 0, 0, 0, 0, 0, 0, 0, 0, 0, 0, 0],
        },
    };
    proof {
        let t = mp.turn();
        let q = quarter(face);
        assert(t.cp =~= q.cp);
        assert(t.co =~= q.co);
        assert(t.ep =~= q.ep);
        assert(t.eo =~= q.eo);
    }
    mp
}

/// Whether no index occurs twice in `a`.
fn all_different(a: &[usize]) -> (b: bool)
    requires
        forall|i: int| 0 <= i < a@.len() ==> a@[i] < a@.len(),
    ensures
        b == distinct(ints(a@)),
{
    let ghost s = ints(a@);
    let n = a.len();
    let mut seen: Vec<bool> = Vec::new();
    let mut k: usize = 0;
    while k < n
        invariant
            k <= n,
            seen@.len() == k,
            forall|v: int| 0 <= v < k ==> !seen@[v],
        decreases n - k,
    {
        seen.push(false);
        k += 1;
    }
    let mut i: usize = 0;
    while i < n
        invariant
            n == a@.len(),
            s == ints(a@),
            i <= n,
            seen@.len() == n,
            forall|k: int| 0 <= k < n ==> a@[k] < n,
            forall|v: int| 0 <= v < n ==> (#[trigger] seen@[v] <==> exists|k: int| 0 <= k < i && s[k] == v),
            forall|p: int, q: int| 0 <= p < q < i ==> s[p] != s[q],
        decreases n - i,
    {
        let v = a[i];
        assert(s[i as int] == v);
        if seen[v] {
            proof {
                let k = choose|k: int| 0 <= k < i && s[k] == v;
                assert(s[k] == s[i as int]);
            }
            return false;
        }
        seen.set(v, true);
        proof {
            assert forall|w: int| 0 <= w < n implies (#[trigger] seen@[w] <==> exists|k: int|
                0 <= k < i + 1 && s[k] == w) by {
                if w == v {
                    assert(s[i as int] == w);
                } else if seen@[w] {
                    let k = choose|k: int| 0 <= k < i && s[k] == w;
                    assert(0 <= k < i + 1 && s[k] == w);
                }
            }
        }
        i += 1;
    }
    true
}

/// Whether every entry of `a` is at most `limit`.
fn all_within(a: &[u8], limit: u8) -> (b: bool)
    ensures
        b == (forall|i: int| 0 <= i < a@.len() ==> #[trigger] bytes(a@)[i] <= limit),
{
    let n = a.len();
    let mut i: usize = 0;
    while i < n
        invariant
            n == a@.len(),
            i <= n,
            forall|k: int| 0 <= k < i ==> #[trigger] bytes(a@)[k] <= limit,
        decreases n - i,
    {
        if a[i] > limit {
            assert(bytes(a@)[i as int] > limit);
            return false;
        }
        i += 1;
    }
    true
}

/// The sum of the entries of `a`.
fn sum_of(a: &[u8]) -> (sum: usize)
    requires
        a@.len() <= 0xffff,
    ensures
        sum == total(bytes(a@)),
{
    let ghost s = bytes(a@);
    let n = a.len();
    let mut sum: usize = 0;
    let mut i: usize = 0;
    assert(s.take(0) =~= Seq::<int>::empty());
    while i < n
        invariant
            n == a@.len(),
            n <= 0xffff,
            s == bytes(a@),
            i <= n,
            sum == total(s.take(i as int)),
            sum <= 255 * i,
        decreases n - i,
    {
        assert(s.take(i as int + 1).drop_last() =~= s.take(i as int));
        sum += a[i] as usize;
        i += 1;
    }
    assert(s.take(n as int) =~= s);
    sum
}

/// Models a 3x3x3 cube, separating permutation and orientation.
#[derive(Clone, Copy, Debug, PartialEq)]
pub struct Cube {
    cp: [Corner; 8],
    co: [u8; 8],
    ep: [Edge; 12],
    eo: [u8; 12],
}

impl View for Cube {
    type V = CubeState;

    closed spec fn view(&self) -> CubeState {
        state_of(self.cp, self.co, self.ep, self.eo)
    }
}

impl Cube {
    /// Creates a new `Cube` with the specified permutations and orientations,
    /// or says why they describe no solvable state.
    pub fn new(cp: [Corner; 8], co: [u8; 8], ep: [Edge; 12], eo: [u8; 12]) -> (r: Result<
        Cube,
        CubeStateErr,
    >)
        ensures
            match r {
                Ok(cube) => cube@ == state_of(cp, co, ep, eo) && cube@.valid(),
                Err(e) => state_of(cp, co, ep, eo).check() == Err::<(), CubeStateErr>(e),
            },
    {
        let cube = Cube { cp, co, ep, eo };
        match cube.verify() {
            Ok(()) => Ok(cube),
            Err(e) => Err(e),
        }
    }

    /// Creates a new `Cube` with the specified permutations and orientations.
    /// This function does not check that the `Cube` is in a solvable state.
    pub fn new_unchecked(cp: [Corner; 8], co: [u8; 8], ep: [Edge; 12], eo: [u8; 12]) -> (cube:
        Cube)
        ensures
            cube@ == state_of(cp, co, ep, eo),
            cube@.wf(),
    {
        Cube { cp, co, ep, eo }
    }

    /// Creates a new `Cube` in the solved state.
    pub fn solved() -> (cube: Cube)
        ensures
            cube@ == CubeState::solved(),
            cube@.valid(),
    {
        let cp = [
            Corner::URF,
            Corner::UFL,
            Corner::ULB,
            Corner::UBR,
            Corner::DFR,
            Corner::DLF,
            Corner::DBL,
            Corner::DRB,
        ];
        let co = [0u8;8];
        let ep = [
            Edge::UR,
            Edge::UF,
            Edge::UL,
            Edge::UB,
            Edge::DR,
            Edge::DF,
            Edge::DL,
            Edge::DB,
            Edge::FR,
            Edge::FL,
            Edge::BL,
            Edge::BR,
        ];
        let eo = [0u8;12];
        proof {
            let s = state_of(cp, co, ep, eo);
            let t = CubeState::solved();
            assert(s.cp =~= t.cp);
            assert(s.co =~= t.co);
            assert(s.ep =~= t.ep);
            assert(s.eo =~= t.eo);
            lemma_solved_valid();
        }
        Cube { cp, co, ep, eo }
    }

    /// Every cube holds eight corners and twelve edges.
    pub proof fn lemma_wf(self)
        ensures
            self@.wf(),
    {
    }

    /// The corners, slot by slot.
    pub fn cp(&self) -> (cp: [Corner; 8])
        ensures
            corner_places(cp) == self@.cp,
    {
        self.cp
    }

    /// The corner twists, slot by slot.
    pub fn co(&self) -> (co: [u8; 8])
        ensures
            bytes(co@) == self@.co,
    {
        self.co
    }

    /// The edges, slot by slot.
    pub fn ep(&self) -> (ep: [Edge; 12])
        ensures
            edge_places(ep) == self@.ep,
    {
        self.ep
    }

    /// The edge flips, slot by slot.
    pub fn eo(&self) -> (eo: [u8; 12])
        ensures
            bytes(eo@) == self@.eo,
    {
        self.eo
    }

    /// Return a new `Cube` after applying `Move` to the current `Cube`.
    pub fn apply_move(&self, move_: Move) -> (cube: Cube)
        requires
            self@.valid(),
        ensures
            cube@ == self@.apply(move_),
            cube@.valid(),
    {
        let mp = move_perm(move_.0);
        let mut cube = *self;
        let mut n: u8 = 0;
        while n < move_.1
            invariant
                n <= move_.1,
                self@.valid(),
                mp.wf(),
                mp.turn() == quarter(move_.0),
                cube@ == self@.turned(move_.0, n as nat),
                cube@.valid(),
            decreases move_.1 - n,
        {
            proof {
                lemma_quarter_turn_valid(cube@, move_.0);
            }
            cube = cube.apply_move_perm(&mp);
            n += 1;
        }
        cube
    }

    /// Return a new `Cube` after applying `MovePerm` to the current `Cube`.
    fn apply_move_perm(&self, move_perm: &MovePerm) -> (cube: Cube)
        requires
            move_perm.wf(),
            forall|i: int| 0 <= i < 8 ==> #[trigger] self@.co[i] <= 2,
            forall|i: int| 0 <= i < 12 ==> #[trigger] self@.eo[i] <= 1,
        ensures
            cube@ == self@.moved(move_perm.turn()),
    {
        let mut cp = [Corner::URF;8];
        let mut co = [0u8;8];
        let mut ep = [Edge::UR;12];
        let mut eo = [0u8;12];

        let mut i: usize = 0;
        while i < 8
            invariant
                i <= 8,
                move_perm.wf(),
                forall|k: int| 0 <= k < 8 ==> #[trigger] self@.co[k] <= 2,
                forall|k: int|
                    0 <= k < i ==> #[trigger] cp[k] == self.cp[move_perm.cp[k] as int],
                forall|k: int|
                    0 <= k < i ==> #[trigger] co[k] == (self.co[move_perm.cp[k] as int]
                        + move_perm.co[k]) % 3,
            decreases 8 - i,
        {
            let j = move_perm.cp[i];
            assert(self@.co[j as int] <= 2);
            cp[i] = self.cp[j];
            co[i] = (self.co[j] + move_perm.co[i]) % 3;
            i += 1;
        }

        let mut i: usize = 0;
        while i < 12
            invariant
                i <= 12,
                move_perm.wf(),
                forall|k: int| 0 <= k < 12 ==> #[trigger] self@.eo[k] <= 1,
                forall|k: int|
                    0 <= k < i ==> #[trigger] ep[k] == self.ep[move_perm.ep[k] as int],
                forall|k: int|
                    0 <= k < i ==> #[trigger] eo[k] == (self.eo[move_perm.ep[k] as int]
                        + move_perm.eo[k]) % 2,
            decreases 12 - i,
        {
            let j = move_perm.ep[i];
            let a = self.eo[j];
            let b = move_perm.eo[i];
            assert(self@.eo[j as int] <= 1);
            assert(a ^ b == (a + b) % 2) by (bit_vector)
                requires
                    a <= 1,
                    b <= 1,
            ;
            ep[i] = self.ep[j];
            eo[i] = a ^ b;
            i += 1;
        }

        let cube = Cube { cp, co, ep, eo };
        proof {
            let d = self@.moved(move_perm.turn());
            assert(cube@.cp =~= d.cp);
            assert(cube@.co =~= d.co);
            assert(cube@.ep =~= d.ep);
            assert(cube@.eo =~= d.eo);
        }
        cube
    }

    /// The places of the corners as indices.
    fn corner_indices(&self) -> (a: [usize; 8])
        ensures
            ints(a@) == self@.cp,
            forall|k: int| 0 <= k < 8 ==> a@[k] < 8,
    {
        let mut a = [0usize;8];
        let mut i: usize = 0;
        while i < 8
            invariant
                i <= 8,
                forall|k: int| 0 <= k < i ==> #[trigger] a[k] == self.cp[k].spec_index(),
            decreases 8 - i,
        {
            a[i] = self.cp[i].index();
            i += 1;
        }
        assert(ints(a@) =~= self@.cp);
        a
    }

    /// The places of the edges as indices.
    fn edge_indices(&self) -> (a: [usize; 12])
        ensures
            ints(a@) == self@.ep,
            forall|k: int| 0 <= k < 12 ==> a@[k] < 12,
    {
        let mut a = [0usize;12];
        let mut i: usize = 0;
        while i < 12
            invariant
                i <= 12,
                forall|k: int| 0 <= k < i ==> #[trigger] a[k] == self.ep[k].spec_index(),
            decreases 12 - i,
        {
            a[i] = self.ep[i].index();
            i += 1;
        }
        assert(ints(a@) =~= self@.ep);
        a
    }

    /// Verify that a `Cube` is in a solvable state.
    pub fn verify(&self) -> (r: Result<(), CubeStateErr>)
        ensures
            r == self@.check(),
    {
        // Check that each edge is used only once.
        let edges = self.edge_indices();
        if !all_different(edges.as_slice()) {
            return Err(CubeStateErr::ErrEP);
        }
        // Check that each edge orientation is 0 or 1.
        if !all_within(self.eo.as_slice(), 1) {
            return Err(CubeStateErr::ErrEO);
        }
        // Check that the total edge orientation is a multiple of 2.
        if sum_of(self.eo.as_slice()) % 2 != 0 {
            return Err(CubeStateErr::ErrEO);
        }
        // Check that each corner is used only once.
        let corners = self.corner_indices();
        if !all_different(corners.as_slice()) {
            return Err(CubeStateErr::ErrCP);
        }
        // Check that each corner orientation is 0, 1 or 2.
        if !all_within(self.co.as_slice(), 2) {
            return Err(CubeStateErr::ErrCO);
        }
        // Check that the total corner orientation is a multiple of 3.
        if sum_of(self.co.as_slice()) % 3 != 0 {
            return Err(CubeStateErr::ErrCO);
        }
        // Check that corner parity and edge parity are equal.
        if self.edge_parity() != self.corner_parity() {
            return Err(CubeStateErr::ErrParity);
        }
        Ok(())
    }

    /// Whether the corners are oddly arranged.
    pub fn corner_parity(&self) -> (b: bool)
        ensures
            b == odd(self@.cp),
    {
        let corners = self.corner_indices();
        num_inversions(corners.as_slice()) % 2 != 0
    }

    /// Whether the edges are oddly arranged.
    pub fn edge_parity(&self) -> (b: bool)
        ensures
            b == odd(self@.ep),
    {
        let edges = self.edge_indices();
        num_inversions(edges.as_slice()) % 2 != 0
    }

    /// Whether the corners and the edges are both evenly or both oddly
    /// arranged.
    pub fn has_valid_parity(&self) -> (b: bool)
        ensures
            b == self@.parity_matched(),
    {
        self.edge_parity() == self.corner_parity()
    }
}

} // verus!
